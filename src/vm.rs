//! The stack machine that runs a chunk.
use crate::chunk::{
    byte_op, op_byte, instr_size, operand, pops, pushes, stack_after, u24_value, Chunk, OpCode,
    MAX_CONSTANTS, read_u24,
};
use crate::compiler::{
    aborts_compile, code_from, compile_fault, compiles, constant_of, fits_from, literals_from,
    reported, Compiler,
};
use crate::error::Error;
use crate::value::{
    falsey, num_eq, num_lt, num_neg, number_less, number_negate, values_eq, ArithOp, Value,
    ValueModel, ValueTypeError,
};
use vstd::prelude::*;

verus! {

/// Number of values the stack holds at most.
pub const STACK_MAX: usize = 100;

/// The message of the error that a push onto a full stack gives.
pub const STACK_OVERFLOW: &'static str = "Stack overflow";

/// The rounding operation of an arithmetic instruction.
pub open spec fn arith_op(op: OpCode) -> ArithOp {
    match op {
        OpCode::OpAdd => ArithOp::Add,
        OpCode::OpSubtract => ArithOp::Subtract,
        OpCode::OpMultiply => ArithOp::Multiply,
        _ => ArithOp::Divide,
    }
}

/// The operands of an instruction that takes two values are of kinds it
/// works on: any for `==`, two strings or two numbers for `+`, two numbers
/// otherwise.
pub open spec fn operands_fit(op: OpCode, l: ValueModel, r: ValueModel) -> bool {
    match op {
        OpCode::OpEqual => true,
        OpCode::OpAdd => (l is Str && r is Str) || (l is Number && r is Number),
        _ => l is Number && r is Number,
    }
}

/// `v` is what an instruction that takes two fitting values, `l` below `r`,
/// leaves: equality or order as IEEE-754 has it, strings joined, and for
/// arithmetic on numbers what `arith` gives for `l` and `r` in that order.
pub open spec fn binary_value<A: Fn(ArithOp, u64, u64) -> u64>(
    arith: &A,
    op: OpCode,
    l: ValueModel,
    r: ValueModel,
    v: ValueModel,
) -> bool {
    match (l, r) {
        (ValueModel::Number(a), ValueModel::Number(b)) => match op {
            OpCode::OpEqual => v == ValueModel::Bool(num_eq(a, b)),
            OpCode::OpLess => v == ValueModel::Bool(num_lt(a, b)),
            OpCode::OpGreater => v == ValueModel::Bool(num_lt(b, a)),
            _ => v matches ValueModel::Number(x) && arith.ensures((arith_op(op), a, b), x),
        },
        (ValueModel::Str(a), ValueModel::Str(b)) => if op == OpCode::OpAdd {
            v == ValueModel::Str(a + b)
        } else {
            v == ValueModel::Bool(values_eq(l, r))
        },
        _ => v == ValueModel::Bool(values_eq(l, r)),
    }
}

/// Each machine in `trace` is the one before it after one instruction.
pub open spec fn runs_through<A: Fn(ArithOp, u64, u64) -> u64>(trace: Seq<VM>, arith: &A) -> bool {
    &&& trace.len() >= 1
    &&& forall|i: int| 0 <= i < trace.len() - 1 ==> #[trigger] trace[i].stepped(&trace[i + 1], arith)
}

/// The error with which a full stack refuses a push.
pub open spec fn overflow_error() -> Error {
    Error::RuntimeError { msg: STACK_OVERFLOW }
}

/// The errors that can stop code on track: an operand of the wrong kind, or
/// a full stack.
pub open spec fn expected_stop(e: Error) -> bool {
    e is TypeError || e == (Error::RuntimeError { msg: STACK_OVERFLOW })
}

/// Concatenation of two strings' bytes.
fn concat(a: Vec<u8>, b: Vec<u8>) -> (r: Vec<u8>)
    ensures
        r@ == a@ + b@,
{
    let mut out = a;
    let mut i: usize = 0;
    let ghost start = out@;
    while i < b.len()
        invariant
            start == a@,
            i <= b@.len(),
            out@ == start + b@.subrange(0, i as int),
        decreases b@.len() - i,
    {
        out.push(b[i]);
        assert(b@.subrange(0, i + 1) =~= b@.subrange(0, i as int).push(b@[i as int]));
        i = i + 1;
    }
    assert(b@.subrange(0, i as int) =~= b@);
    out
}

/// Applies an instruction that takes two values, `left` below `right`.
pub fn binary_op<A: Fn(ArithOp, u64, u64) -> u64>(
    op: OpCode,
    left: Value,
    right: Value,
    arith: &A,
) -> (r: Result<Value, ValueTypeError>)
    requires
        pops(op) == 2,
        op != OpCode::OpReturn,
        forall|o: ArithOp, x: u64, y: u64| arith.requires((o, x, y)),
    ensures
        operands_fit(op, left@, right@) ==> (r matches Ok(v) && binary_value(
            arith,
            op,
            left@,
            right@,
            v@,
        )),
        !operands_fit(op, left@, right@) ==> r is Err,
{
    match op {
        OpCode::OpEqual => Ok(Value::Bool(left.equals(&right))),
        OpCode::OpGreater | OpCode::OpLess => {
            let a = match left.to_number() {
                Ok(a) => a,
                Err(e) => {
                    return Err(e);
                },
            };
            let b = match right.to_number() {
                Ok(b) => b,
                Err(e) => {
                    return Err(e);
                },
            };
            if op == OpCode::OpLess {
                Ok(Value::Bool(number_less(a, b)))
            } else {
                Ok(Value::Bool(number_less(b, a)))
            }
        },
        _ => {
            if op == OpCode::OpAdd && left.is_str() && right.is_str() {
                let a = match left.into_str() {
                    Ok(a) => a,
                    Err(e) => {
                        return Err(e);
                    },
                };
                let b = match right.into_str() {
                    Ok(b) => b,
                    Err(e) => {
                        return Err(e);
                    },
                };
                return Ok(Value::Str(concat(a, b)));
            }
            let a = match left.to_number() {
                Ok(a) => a,
                Err(e) => {
                    return Err(e);
                },
            };
            let b = match right.to_number() {
                Ok(b) => b,
                Err(e) => {
                    return Err(e);
                },
            };
            let request = match op {
                OpCode::OpAdd => ArithOp::Add,
                OpCode::OpSubtract => ArithOp::Subtract,
                OpCode::OpMultiply => ArithOp::Multiply,
                _ => ArithOp::Divide,
            };
            Ok(Value::Number(arith(request, a, b)))
        },
    }
}

/// A virtual machine: a chunk, the offset of the next instruction, and a
/// stack of at most `STACK_MAX` values.
pub struct VM {
    chunk: Chunk,
    ip: usize,
    stack: Vec<Value>,
}

impl VM {
    pub closed spec fn chunk_view(&self) -> Chunk {
        self.chunk
    }

    pub closed spec fn ip_view(&self) -> int {
        self.ip as int
    }

    pub closed spec fn stack_view(&self) -> Seq<ValueModel> {
        self.stack@.map_values(|v: Value| v@)
    }

    /// The chunk is well formed, the next instruction is inside it or just
    /// past it, and the stack never holds more than `STACK_MAX` values.
    pub open spec fn wf(&self) -> bool {
        &&& self.chunk_view().wf()
        &&& 0 <= self.ip_view() <= self.chunk_view().code_view().len()
        &&& self.stack_view().len() <= STACK_MAX
    }

    /// The code from the next instruction is an expression's remainder whose
    /// `Return` finds exactly one value on the stack.
    pub open spec fn on_track(&self) -> bool {
        let code = self.chunk_view().code_view();
        &&& code.len() >= 1
        &&& byte_op(code.last()) == Some(OpCode::OpReturn)
        &&& self.ip_view() <= code.len() - 1
        &&& stack_after(
            code.subrange(self.ip_view(), code.len() - 1),
            self.stack_view().len() as int,
            self.chunk_view().constants_view().len() as int,
        ) == Some(1int)
    }

    /// The instruction at `ip`, if the byte there encodes one.
    pub open spec fn next_op(&self) -> Option<OpCode> {
        let code = self.chunk_view().code_view();
        if 0 <= self.ip_view() < code.len() {
            byte_op(code[self.ip_view()])
        } else {
            None
        }
    }

    /// `next` is this machine after it ran the instruction at `ip` and went
    /// on: `ip` past the instruction, and the stack as the instruction says,
    /// where arithmetic on two numbers leaves some number.
    pub open spec fn stepped<A: Fn(ArithOp, u64, u64) -> u64>(&self, next: &VM, arith: &A) -> bool {
        let code = self.chunk_view().code_view();
        let consts = self.chunk_view().constants_view();
        let ip = self.ip_view();
        let s = self.stack_view();
        let t = next.stack_view();
        let n = s.len() as int;
        &&& self.next_op() is Some
        &&& next.chunk_view() == self.chunk_view()
        &&& next.ip_view() == ip + instr_size(self.next_op().unwrap())
        &&& match self.next_op().unwrap() {
            OpCode::OpReturn => false,
            OpCode::OpConstant | OpCode::OpConstantLong => {
                let index = operand(self.next_op().unwrap(), code.subrange(ip, code.len() as int));
                0 <= index < consts.len() && n < STACK_MAX && t == s.push(consts[index])
            },
            OpCode::OpNil => n < STACK_MAX && t == s.push(ValueModel::Nil),
            OpCode::OpTrue => n < STACK_MAX && t == s.push(ValueModel::Bool(true)),
            OpCode::OpFalse => n < STACK_MAX && t == s.push(ValueModel::Bool(false)),
            OpCode::OpNot => n >= 1 && t == s.drop_last().push(ValueModel::Bool(falsey(s.last()))),
            OpCode::OpNegate => n >= 1 && (s.last() matches ValueModel::Number(x) && t
                == s.drop_last().push(ValueModel::Number(num_neg(x)))),
            op => {
                &&& n >= 2
                &&& t.len() == n - 1
                &&& t.drop_last() == s.subrange(0, n - 2)
                &&& operands_fit(op, s[n - 2], s[n - 1])
                &&& binary_value(arith, op, s[n - 2], s[n - 1], t.last())
            },
        }
    }

    /// The instruction at `ip` is `Return` and `v` is the top of the stack.
    pub open spec fn returning(&self, v: ValueModel) -> bool {
        &&& self.next_op() == Some(OpCode::OpReturn)
        &&& self.stack_view().len() >= 1
        &&& v == self.stack_view().last()
    }

    /// The instruction at `ip` finds an operand of the wrong kind on top of
    /// the stack.
    pub open spec fn mistyped(&self) -> bool {
        let s = self.stack_view();
        let n = s.len() as int;
        self.next_op() matches Some(op) && if op == OpCode::OpNegate {
            n >= 1 && !(s.last() is Number)
        } else {
            pops(op) == 2 && op != OpCode::OpReturn && n >= 2 && !operands_fit(op, s[n - 2], s[n - 1])
        }
    }

    /// The code at `ip` cannot run: no instruction there, its operand runs
    /// past the end or names a constant past the pool, or the stack holds
    /// fewer values than it takes.
    pub open spec fn bad_code(&self) -> bool {
        let code = self.chunk_view().code_view();
        let ip = self.ip_view();
        match self.next_op() {
            None => true,
            Some(op) => {
                ||| ip + instr_size(op) > code.len()
                ||| ((op == OpCode::OpConstant || op == OpCode::OpConstantLong) && !(0 <= operand(
                    op,
                    code.subrange(ip, code.len() as int),
                ) < self.chunk_view().constants_view().len()))
                ||| self.stack_view().len() < pops(op)
            },
        }
    }

    /// The instruction at `ip` pushes without popping, onto a full stack.
    pub open spec fn overflows(&self) -> bool {
        self.next_op() matches Some(op) && op != OpCode::OpReturn && pops(op) == 0
            && self.stack_view().len() >= STACK_MAX
    }

    /// The line a type error at `ip` is reported on: that of the byte after
    /// the instruction where there is one, else the instruction's own.
    pub open spec fn fault_line(&self) -> u32 {
        let lines = self.chunk_view().lines_view();
        if self.ip_view() + 1 < lines.len() {
            lines[self.ip_view() + 1]
        } else {
            lines[self.ip_view()]
        }
    }

    /// Why the machine stops at `ip` with `e`.
    pub open spec fn halts(&self, e: Error) -> bool {
        ||| (self.bad_code() && e is RuntimeError)
        ||| (!self.bad_code() && self.overflows() && e == overflow_error())
        ||| (!self.bad_code() && self.mistyped() && (e matches Error::TypeError { line, .. }
            && line == self.fault_line()))
    }

    pub fn new() -> (r: Self)
        ensures
            r.wf(),
            r.chunk_view().code_view().len() == 0,
            r.ip_view() == 0,
            r.stack_view().len() == 0,
    {
        VM { chunk: Chunk::new(), ip: 0, stack: Vec::new() }
    }

    /// The chunk the machine runs.
    pub fn chunk(&self) -> (r: &Chunk)
        ensures
            *r == self.chunk_view(),
    {
        &self.chunk
    }

    /// Appends one byte of code.
    pub fn write(&mut self, byte: u8, line: u32)
        requires
            old(self).wf(),
        ensures
            final(self).wf(),
            final(self).chunk_view().code_view() == old(self).chunk_view().code_view().push(byte),
            final(self).chunk_view().lines_view() == old(self).chunk_view().lines_view().push(line),
            final(self).chunk_view().constants_view() == old(self).chunk_view().constants_view(),
            final(self).stack_view() == old(self).stack_view(),
            final(self).ip_view() == old(self).ip_view(),
    {
        self.chunk.write(byte, line)
    }

    /// Appends one instruction without operand.
    pub fn write_opcode(&mut self, opcode: OpCode, line: u32)
        requires
            old(self).wf(),
        ensures
            final(self).wf(),
            final(self).chunk_view().code_view() == old(self).chunk_view().code_view().push(
                crate::chunk::op_byte(opcode),
            ),
            final(self).chunk_view().lines_view() == old(self).chunk_view().lines_view().push(line),
            final(self).chunk_view().constants_view() == old(self).chunk_view().constants_view(),
            final(self).stack_view() == old(self).stack_view(),
            final(self).ip_view() == old(self).ip_view(),
    {
        self.chunk.write(opcode.to_byte(), line)
    }

    /// Adds a constant and appends the instruction that pushes it.
    pub fn write_constant(&mut self, value: Value, line: u32)
        requires
            old(self).wf(),
            old(self).chunk_view().constants_view().len() < MAX_CONSTANTS,
        ensures
            final(self).wf(),
            final(self).chunk_view().constants_view() == old(
                self,
            ).chunk_view().constants_view().push(value@),
            final(self).chunk_view().code_view() == old(self).chunk_view().code_view()
                + crate::chunk::constant_instruction(
                old(self).chunk_view().constants_view().len() as int,
            ),
            final(self).stack_view() == old(self).stack_view(),
            final(self).ip_view() == old(self).ip_view(),
    {
        self.chunk.write_constant(value, line)
    }

    pub fn push(&mut self, value: Value) -> (r: Result<(), Error>)
        requires
            old(self).wf(),
        ensures
            final(self).wf(),
            final(self).chunk_view() == old(self).chunk_view(),
            final(self).ip_view() == old(self).ip_view(),
            old(self).stack_view().len() < STACK_MAX ==> r is Ok && final(self).stack_view()
                == old(self).stack_view().push(value@),
            old(self).stack_view().len() >= STACK_MAX ==> r == Err::<(), Error>(
                Error::RuntimeError { msg: STACK_OVERFLOW },
            ) && final(self).stack_view() == old(self).stack_view(),
    {
        if self.stack.len() >= STACK_MAX {
            return Err(Error::RuntimeError { msg: STACK_OVERFLOW });
        }
        let ghost v = value@;
        self.stack.push(value);
        assert(self.stack_view() =~= old(self).stack_view().push(v));
        Ok(())
    }

    pub fn pop(&mut self) -> (r: Result<Value, Error>)
        requires
            old(self).wf(),
        ensures
            final(self).wf(),
            final(self).chunk_view() == old(self).chunk_view(),
            final(self).ip_view() == old(self).ip_view(),
            old(self).stack_view().len() > 0 ==> (r matches Ok(v) && v@ == old(self).stack_view().last()
                && final(self).stack_view() == old(self).stack_view().drop_last()),
            old(self).stack_view().len() == 0 ==> r is Err && final(self).stack_view() == old(
                self,
            ).stack_view(),
            r matches Err(e) ==> e is RuntimeError,
    {
        match self.stack.pop() {
            Some(v) => {
                assert(self.stack_view() =~= old(self).stack_view().drop_last());
                Ok(v)
            },
            None => Err(Error::RuntimeError { msg: "pop error" }),
        }
    }

    /// The value `index` places below the top of the stack.
    pub fn peek(&self, index: usize) -> (r: Result<&Value, Error>)
        ensures
            index < self.stack_view().len() ==> (r matches Ok(v) && v@ == self.stack_view()[self.stack_view().len() - 1 - index]),
            index >= self.stack_view().len() ==> r is Err,
    {
        if index < self.stack.len() {
            Ok(&self.stack[self.stack.len() - 1 - index])
        } else {
            Err(Error::RuntimeError { msg: "peek past the bottom of the stack" })
        }
    }

    /// Reads the byte at `ip` and moves past it.
    fn read_byte(&mut self) -> (r: u8)
        requires
            old(self).wf(),
            old(self).ip_view() < old(self).chunk_view().code_view().len(),
        ensures
            final(self).wf(),
            final(self).chunk == old(self).chunk,
            final(self).stack == old(self).stack,
            final(self).ip == old(self).ip + 1,
            r == old(self).chunk_view().code_view()[old(self).ip_view()],
    {
        let byte = self.chunk.code()[self.ip];
        self.ip = self.ip + 1;
        byte
    }

    /// The constant that the one-byte operand at `ip` names.
    fn read_constant(&mut self) -> (r: Result<Value, Error>)
        requires
            old(self).wf(),
        ensures
            final(self).wf(),
            final(self).chunk == old(self).chunk,
            final(self).stack == old(self).stack,
            r matches Err(e) ==> e is RuntimeError,
            ({
                let code = old(self).chunk_view().code_view();
                let consts = old(self).chunk_view().constants_view();
                let ip = old(self).ip_view();
                if ip < code.len() && (code[ip] as int) < consts.len() {
                    &&& r matches Ok(v) && v@ == consts[code[ip] as int]
                    &&& final(self).ip_view() == ip + 1
                } else {
                    r is Err
                }
            }),
    {
        if self.ip >= self.chunk.len() {
            return Err(Error::RuntimeError { msg: "operand past the end of the code" });
        }
        let constant = self.read_byte();
        if constant as usize >= self.chunk.constants().len() {
            return Err(Error::RuntimeError { msg: "no such constant" });
        }
        Ok(self.chunk.constants().get(constant as usize).duplicate())
    }

    /// The constant that the three-byte operand at `ip` names.
    fn read_constant_long(&mut self) -> (r: Result<Value, Error>)
        requires
            old(self).wf(),
        ensures
            final(self).wf(),
            final(self).chunk == old(self).chunk,
            final(self).stack == old(self).stack,
            r matches Err(e) ==> e is RuntimeError,
            ({
                let code = old(self).chunk_view().code_view();
                let consts = old(self).chunk_view().constants_view();
                let ip = old(self).ip_view();
                if ip + 3 <= code.len() && (u24_value(code.subrange(ip, ip + 3)) as int)
                    < consts.len() {
                    &&& r matches Ok(v) && v@ == consts[u24_value(code.subrange(ip, ip + 3)) as int]
                    &&& final(self).ip_view() == ip + 3
                } else {
                    r is Err
                }
            }),
    {
        if self.chunk.len() < 3 || self.ip > self.chunk.len() - 3 {
            return Err(Error::RuntimeError { msg: "operand past the end of the code" });
        }
        let b0 = self.read_byte();
        let b1 = self.read_byte();
        let b2 = self.read_byte();
        let operand = [b0, b1, b2];
        assert(operand@ =~= old(self).chunk_view().code_view().subrange(old(self).ip_view(), old(self).ip_view() + 3));
        let constant = read_u24(&operand);
        if constant as usize >= self.chunk.constants().len() {
            return Err(Error::RuntimeError { msg: "no such constant" });
        }
        Ok(self.chunk.constants().get(constant as usize).duplicate())
    }

    /// The source line to blame for a failing instruction: that of the byte
    /// after it where there is one, else its own.
    fn error_line(&self) -> (r: u32)
        requires
            self.wf(),
            self.ip_view() >= 1,
        ensures
            r == if self.ip_view() < self.chunk_view().code_view().len() {
                self.chunk_view().lines_view()[self.ip_view()]
            } else {
                self.chunk_view().lines_view()[self.ip_view() - 1]
            },
    {
        if self.ip < self.chunk.len() {
            self.chunk.get_line_number(self.ip)
        } else {
            self.chunk.get_line_number(self.ip - 1)
        }
    }

    /// Pushes `value`, or gives the overflow error.
    fn push_or_stop(&mut self, value: Value) -> (r: Option<Result<Value, Error>>)
        requires
            old(self).wf(),
        ensures
            final(self).wf(),
            final(self).chunk_view() == old(self).chunk_view(),
            final(self).ip_view() == old(self).ip_view(),
            old(self).stack_view().len() < STACK_MAX ==> r is None && final(self).stack_view()
                == old(self).stack_view().push(value@),
            old(self).stack_view().len() >= STACK_MAX ==> r == Some(
                Err::<Value, Error>(Error::RuntimeError { msg: STACK_OVERFLOW }),
            ),
    {
        match self.push(value) {
            Ok(()) => None,
            Err(e) => Some(Err(e)),
        }
    }

    /// Runs the instruction at `ip`. `None` to go on; otherwise the value
    /// that `Return` took, or the error that stopped the machine.
    pub fn step<A: Fn(ArithOp, u64, u64) -> u64>(&mut self, arith: &A) -> (r: Option<
        Result<Value, Error>,
    >)
        requires
            old(self).wf(),
            forall|o: ArithOp, x: u64, y: u64| arith.requires((o, x, y)),
        ensures
            final(self).wf(),
            final(self).chunk_view() == old(self).chunk_view(),
            r is None ==> final(self).ip_view() > old(self).ip_view(),
            r is None ==> old(self).stepped(final(self), arith),
            old(self).bad_code() ==> (r matches Some(Err(e)) && e is RuntimeError),
            !old(self).bad_code() && old(self).next_op() == Some(OpCode::OpReturn) ==> (r matches Some(
                Ok(v),
            ) && old(self).returning(v@) && final(self).stack_view() == old(
                self,
            ).stack_view().drop_last()),
            !old(self).bad_code() && old(self).overflows() ==> r == Some(
                Err::<Value, Error>(overflow_error()),
            ),
            !old(self).bad_code() && old(self).mistyped() ==> (r matches Some(Err(e)) && old(
                self,
            ).halts(e)),
            !old(self).bad_code() && old(self).next_op() != Some(OpCode::OpReturn) && !old(
                self,
            ).overflows() && !old(self).mistyped() ==> r is None,
            old(self).on_track() ==> match r {
                None => final(self).on_track(),
                Some(Ok(_)) => final(self).stack_view().len() == 0,
                Some(Err(e)) => expected_stop(e),
            },
    {
        if self.ip >= self.chunk.len() {
            return Some(Err(Error::RuntimeError { msg: "ran past the end of the code" }));
        }
        let ghost code = self.chunk_view().code_view();
        let ghost n = self.chunk_view().constants_view().len() as int;
        let ghost ip0 = self.ip_view();
        let ghost d = self.stack_view().len() as int;
        proof {
            if self.on_track() && ip0 < code.len() - 1 {
                lemma_on_track_step(code, ip0, code.len() - 1, d, n);
            }
        }
        let byte = self.read_byte();
        let op = match OpCode::from_byte(byte) {
            Some(op) => op,
            None => {
                return Some(Err(Error::RuntimeError { msg: "unknown opcode" }));
            },
        };
        match op {
            OpCode::OpReturn => Some(self.pop()),
            OpCode::OpConstant => match self.read_constant() {
                Ok(v) => self.push_or_stop(v),
                Err(e) => Some(Err(e)),
            },
            OpCode::OpConstantLong => {
                proof {
                    if ip0 + 4 <= code.len() {
                        assert(code.subrange(ip0, code.len() as int).subrange(1, 4) =~= code.subrange(
                            ip0 + 1,
                            ip0 + 4,
                        ));
                    }
                }
                match self.read_constant_long() {
                    Ok(v) => self.push_or_stop(v),
                    Err(e) => Some(Err(e)),
                }
            },
            OpCode::OpNil => self.push_or_stop(Value::Nil),
            OpCode::OpTrue => self.push_or_stop(Value::Bool(true)),
            OpCode::OpFalse => self.push_or_stop(Value::Bool(false)),
            OpCode::OpNot => match self.pop() {
                Ok(v) => self.push_or_stop(Value::Bool(v.is_falsey())),
                Err(e) => Some(Err(e)),
            },
            OpCode::OpNegate => match self.pop() {
                Ok(v) => match v.to_number() {
                    Ok(x) => self.push_or_stop(Value::Number(number_negate(x))),
                    Err(source) => {
                        let line = self.error_line();
                        Some(Err(Error::TypeError { msg: "no number value", line, source }))
                    },
                },
                Err(e) => Some(Err(e)),
            },
            _ => {
                let right = match self.pop() {
                    Ok(v) => v,
                    Err(e) => {
                        return Some(Err(e));
                    },
                };
                let left = match self.pop() {
                    Ok(v) => v,
                    Err(e) => {
                        return Some(Err(e));
                    },
                };
                match binary_op(op, left, right, arith) {
                    Ok(v) => {
                        let ghost before = self.stack_view();
                        let r = self.push_or_stop(v);
                        proof {
                            if r is None {
                                assert(self.stack_view().drop_last() =~= before);
                                assert(before =~= old(self).stack_view().subrange(0, d - 2));
                            }
                        }
                        r
                    },
                    Err(source) => {
                        let line = self.error_line();
                        Some(Err(Error::TypeError { msg: "not a number", line, source }))
                    },
                }
            },
        }
    }

    /// Runs from `ip` until `Return`, which gives the value it took from the
    /// stack, or until an error.
    pub fn run<A: Fn(ArithOp, u64, u64) -> u64>(&mut self, arith: &A) -> (r: Result<Value, Error>)
        requires
            old(self).wf(),
            forall|o: ArithOp, x: u64, y: u64| arith.requires((o, x, y)),
        ensures
            final(self).wf(),
            final(self).chunk_view() == old(self).chunk_view(),
            old(self).on_track() ==> match r {
                Ok(_) => final(self).stack_view().len() == 0,
                Err(e) => expected_stop(e),
            },
            r matches Ok(v) ==> exists|trace: Seq<VM>|
                runs_through(trace, arith) && trace[0] == *old(self) && !trace.last().bad_code()
                    && #[trigger] trace.last().returning(v@),
            r matches Err(e) ==> exists|trace: Seq<VM>|
                runs_through(trace, arith) && trace[0] == *old(self) && #[trigger] trace.last().halts(
                    e,
                ),
    {
        let mut outcome: Result<Value, Error> = Err(Error::RuntimeError { msg: "no instruction ran" });
        let ghost mut trace: Seq<VM> = seq![*self];
        loop
            invariant_except_break
                old(self).on_track() ==> self.on_track(),
                trace.last() == *self,
            invariant
                self.wf(),
                self.chunk_view() == old(self).chunk_view(),
                runs_through(trace, arith),
                trace[0] == *old(self),
                forall|o: ArithOp, x: u64, y: u64| arith.requires((o, x, y)),
            ensures
                self.wf(),
                self.chunk_view() == old(self).chunk_view(),
                old(self).on_track() ==> match outcome {
                    Ok(_) => self.stack_view().len() == 0,
                    Err(e) => expected_stop(e),
                },
                outcome matches Ok(v) ==> !trace.last().bad_code() && trace.last().returning(v@),
                outcome matches Err(e) ==> trace.last().halts(e),
            decreases self.chunk_view().code_view().len() - self.ip_view(),
        {
            let ghost before = *self;
            match self.step(arith) {
                None => {
                    proof {
                        let next = trace.push(*self);
                        assert forall|i: int| 0 <= i < next.len() - 1 implies #[trigger] next[i].stepped(
                            &next[i + 1],
                            arith,
                        ) by {
                            if i < trace.len() - 1 {
                                assert(next[i] == trace[i] && next[i + 1] == trace[i + 1]);
                            }
                        }
                        trace = next;
                    }
                },
                Some(res) => {
                    outcome = res;
                    break ;
                },
            }
        }
        assert(runs_through(trace, arith) && trace[0] == *old(self));
        outcome
    }

    /// The machine is at the start of the code that `src` compiles to, with
    /// an empty stack.
    pub open spec fn started_on(&self, src: Seq<u8>) -> bool {
        &&& self.ip_view() == 0
        &&& self.stack_view().len() == 0
        &&& self.chunk_view().code_view() == code_from(src, 0, 0).push(op_byte(OpCode::OpReturn))
    }

    /// The constant pool holds the constants of the literals of `src`, in
    /// order.
    pub open spec fn pool_of<P: Fn(&Vec<u8>) -> u64>(&self, src: Seq<u8>, parse: &P) -> bool {
        let lits = literals_from(src, 0, 0);
        &&& self.chunk_view().constants_view().len() == lits.len()
        &&& forall|k: int|
            0 <= k < lits.len() ==> #[trigger] constant_of(
                src,
                lits[k],
                self.chunk_view().constants_view()[k],
                parse,
            )
    }

    /// Compiles `source` into a fresh chunk and runs it; the value of the
    /// expression, or the first error met.
    pub fn interpret_source<P: Fn(&Vec<u8>) -> u64, A: Fn(ArithOp, u64, u64) -> u64>(
        &mut self,
        source: &[u8],
        parse: &P,
        arith: &A,
    ) -> (r: Result<Value, Error>)
        requires
            old(self).wf(),
            source@.len() < u32::MAX,
            forall|s: &Vec<u8>| parse.requires((s,)),
            forall|o: ArithOp, x: u64, y: u64| arith.requires((o, x, y)),
        ensures
            final(self).wf(),
            r is Ok ==> final(self).stack_view().len() == 0,
            !compiles(source@) ==> (r matches Err(e) && e is CompileError),
            r matches Err(e) ==> (!compiles(source@) && !aborts_compile(e) ==> reported(
                Some(e),
                source@,
                compile_fault(source@, 0, 0),
            )),
            r matches Ok(v) ==> exists|trace: Seq<VM>|
                runs_through(trace, arith) && trace[0].started_on(source@) && trace[0].pool_of(source@, parse)
                    && !trace.last().bad_code()
                    && #[trigger] trace.last().returning(v@),
            r matches Err(e) ==> (e is CompileError && !(compiles(source@) && fits_from(
                source@,
                0,
                0,
            ))) || exists|trace: Seq<VM>|
                runs_through(trace, arith) && trace[0].started_on(source@) && trace[0].pool_of(source@, parse)
                    && #[trigger] trace.last().halts(
                    e,
                ),
            compiles(source@) && fits_from(source@, 0, 0) ==> !(r matches Err(e) && e is CompileError),
    {
        let chunk = Chunk::new();
        let mut compiler = Compiler::new(source, chunk);
        let compiled = compiler.compile(parse);
        let (chunk, report) = compiler.finish();
        match compiled {
            Err(e) => {
                return Err(e);
            },
            Ok(false) => {
                return match report {
                    Some(e) => Err(e),
                    None => Err(Error::CompileError { line: 1, site: crate::error::Site::End, msg: "Expect expression" }),
                };
            },
            Ok(true) => {},
        }
        self.chunk = chunk;
        self.ip = 0;
        self.stack = Vec::new();
        proof {
            let code = self.chunk_view().code_view();
            assert(code.subrange(0, code.len() as int) =~= code);
            assert(code.subrange(0, code.len() - 1) =~= code.drop_last());
            assert(self.stack_view().len() == 0);
            assert(Seq::<u8>::empty() + code_from(source@, 0, 0).push(op_byte(OpCode::OpReturn))
                =~= code_from(source@, 0, 0).push(op_byte(OpCode::OpReturn)));
        }
        let ghost start = *self;
        assert(start.started_on(source@));
        assert(start.pool_of(source@, parse)) by {
            let lits = literals_from(source@, 0, 0);
            assert forall|k: int| 0 <= k < lits.len() implies #[trigger] constant_of(
                source@,
                lits[k],
                start.chunk_view().constants_view()[k],
                parse,
            ) by {
                assert(constant_of(source@, lits[k], start.chunk_view().constants_view()[0 + k], parse));
            }
        }
        let r = self.run(arith);
        proof {
            if r is Ok {
                let v = r.unwrap()@;
                let trace = choose|trace: Seq<VM>|
                    runs_through(trace, arith) && trace[0] == start && !trace.last().bad_code()
                        && #[trigger] trace.last().returning(v);
                assert(runs_through(trace, arith) && trace.last().returning(v) && trace[0].started_on(
                    source@,
                ) && trace[0].pool_of(source@, parse) && !trace.last().bad_code());
            } else {
                let e = r.unwrap_err();
                let trace = choose|trace: Seq<VM>|
                    runs_through(trace, arith) && trace[0] == start && #[trigger] trace.last().halts(e);
                assert(runs_through(trace, arith) && trace.last().halts(e) && trace[0].started_on(
                    source@,
                ) && trace[0].pool_of(source@, parse));
            }
        }
        r
    }
}

/// One instruction of code that is on track: it is whole, is not `Return`,
/// finds what it takes on the stack and in the pool, and leaves the rest on
/// track.
proof fn lemma_on_track_step(code: Seq<u8>, ip: int, last: int, d: int, n: int)
    requires
        0 <= ip < last <= code.len(),
        stack_after(code.subrange(ip, last), d, n) == Some(1int),
    ensures
        byte_op(code[ip]) matches Some(op) && ({
            &&& op != OpCode::OpReturn
            &&& ip + instr_size(op) <= last
            &&& d >= pops(op)
            &&& (op == OpCode::OpConstant ==> (code[ip + 1] as int) < n)
            &&& (op == OpCode::OpConstantLong ==> (u24_value(code.subrange(ip + 1, ip + 4)) as int) < n)
            &&& stack_after(code.subrange(ip + instr_size(op), last), d - pops(op) + pushes(op), n)
                == Some(1int)
        }),
{
    let rest = code.subrange(ip, last);
    let op = byte_op(rest[0]).unwrap();
    assert(rest.subrange(instr_size(op), rest.len() as int) =~= code.subrange(ip + instr_size(op), last));
    if op == OpCode::OpConstantLong {
        assert(rest.subrange(1, 4) =~= code.subrange(ip + 1, ip + 4));
    }
}

} // verus!
