//! The single-pass Pratt compiler: parses one expression and writes its
//! bytecode into a chunk as it goes.
use crate::chunk::{
    constant_instruction, expression_code, lemma_constant_instruction, lemma_simple_instruction,
    lemma_stack_after_concat, lemma_stack_after_deeper, lemma_stack_after_more_constants, op_byte,
    operator_code, stack_after, Chunk, OpCode, MAX_CONSTANTS,
};
use crate::error::{Error, Site};
use crate::scanner::{lexeme_of_kind, newlines, next_token, skip_from, string_lexeme, Scanner, Token, QUOTE};
use crate::token_type::TokenType;
use crate::value::{Value, ValueModel};
use vstd::prelude::*;

verus! {

/// The message of the error that a full constant pool gives.
pub const POOL_FULL: &'static str = "Too many constants in one chunk";

/// The error that ends compiling early: a full constant pool.
pub open spec fn aborts_compile(e: Error) -> bool {
    e matches Error::CompileError { msg, .. } && msg == POOL_FULL
}

/// How tightly an operator binds, loosest first.
#[derive(Clone, Copy, Debug, PartialEq, Eq, Structural)]
pub enum Precedence {
    Lowest,
    Assignment,
    Or,
    And,
    Equality,
    Comparison,
    Term,
    Factor,
    Unary,
    Call,
    Primary,
}

pub open spec fn level(p: Precedence) -> int {
    match p {
        Precedence::Lowest => 0,
        Precedence::Assignment => 1,
        Precedence::Or => 2,
        Precedence::And => 3,
        Precedence::Equality => 4,
        Precedence::Comparison => 5,
        Precedence::Term => 6,
        Precedence::Factor => 7,
        Precedence::Unary => 8,
        Precedence::Call => 9,
        Precedence::Primary => 10,
    }
}

/// One level tighter than `p`; `Primary` is the tightest.
pub open spec fn next_level(p: Precedence) -> Precedence {
    match p {
        Precedence::Lowest => Precedence::Assignment,
        Precedence::Assignment => Precedence::Or,
        Precedence::Or => Precedence::And,
        Precedence::And => Precedence::Equality,
        Precedence::Equality => Precedence::Comparison,
        Precedence::Comparison => Precedence::Term,
        Precedence::Term => Precedence::Factor,
        Precedence::Factor => Precedence::Unary,
        Precedence::Unary => Precedence::Call,
        Precedence::Call => Precedence::Primary,
        Precedence::Primary => Precedence::Primary,
    }
}

impl Precedence {
    pub fn level(self) -> (r: u8)
        ensures
            r == level(self),
    {
        match self {
            Precedence::Lowest => 0,
            Precedence::Assignment => 1,
            Precedence::Or => 2,
            Precedence::And => 3,
            Precedence::Equality => 4,
            Precedence::Comparison => 5,
            Precedence::Term => 6,
            Precedence::Factor => 7,
            Precedence::Unary => 8,
            Precedence::Call => 9,
            Precedence::Primary => 10,
        }
    }

    /// One level tighter; `Primary` is the tightest.
    pub fn next(self) -> (r: Precedence)
        ensures
            r == next_level(self),
            level(self) < 10 ==> level(r) == level(self) + 1,
    {
        match self {
            Precedence::Lowest => Precedence::Assignment,
            Precedence::Assignment => Precedence::Or,
            Precedence::Or => Precedence::And,
            Precedence::And => Precedence::Equality,
            Precedence::Equality => Precedence::Comparison,
            Precedence::Comparison => Precedence::Term,
            Precedence::Term => Precedence::Factor,
            Precedence::Factor => Precedence::Unary,
            Precedence::Unary => Precedence::Call,
            Precedence::Call => Precedence::Primary,
            Precedence::Primary => Precedence::Primary,
        }
    }
}

/// The parse functions that the rule table names.
#[derive(Clone, Copy, Debug, PartialEq, Eq, Structural)]
pub enum ParseFn {
    Grouping,
    Unary,
    Binary,
    Number,
    Str,
    Literal,
}

/// The prefix parse function of a token type.
pub open spec fn prefix_of(ty: TokenType) -> Option<ParseFn> {
    match ty {
        TokenType::LeftParen => Some(ParseFn::Grouping),
        TokenType::Minus | TokenType::Bang => Some(ParseFn::Unary),
        TokenType::Number => Some(ParseFn::Number),
        TokenType::Str => Some(ParseFn::Str),
        TokenType::True | TokenType::False | TokenType::Nil => Some(ParseFn::Literal),
        _ => None,
    }
}

/// The infix parse function of a token type.
pub open spec fn infix_of(ty: TokenType) -> Option<ParseFn> {
    match ty {
        TokenType::Minus | TokenType::Plus | TokenType::Slash | TokenType::Star
        | TokenType::BangEqual | TokenType::EqualEqual | TokenType::Greater
        | TokenType::GreaterEqual | TokenType::Less | TokenType::LessEqual => Some(ParseFn::Binary),
        _ => None,
    }
}

/// How tightly a token type binds the operand on its left.
pub open spec fn precedence_of(ty: TokenType) -> Precedence {
    match ty {
        TokenType::LeftParen => Precedence::Call,
        TokenType::Minus | TokenType::Plus => Precedence::Term,
        TokenType::Slash | TokenType::Star => Precedence::Factor,
        TokenType::BangEqual | TokenType::EqualEqual => Precedence::Equality,
        TokenType::Greater | TokenType::GreaterEqual | TokenType::Less | TokenType::LessEqual => {
            Precedence::Comparison
        },
        _ => Precedence::Lowest,
    }
}

/// The bytes that a binary operator compiles to, after its two operands.
pub open spec fn binary_code(ty: TokenType) -> Seq<u8> {
    match ty {
        TokenType::Plus => seq![op_byte(OpCode::OpAdd)],
        TokenType::Minus => seq![op_byte(OpCode::OpSubtract)],
        TokenType::Star => seq![op_byte(OpCode::OpMultiply)],
        TokenType::Slash => seq![op_byte(OpCode::OpDivide)],
        TokenType::EqualEqual => seq![op_byte(OpCode::OpEqual)],
        TokenType::BangEqual => seq![op_byte(OpCode::OpEqual), op_byte(OpCode::OpNot)],
        TokenType::Greater => seq![op_byte(OpCode::OpGreater)],
        TokenType::GreaterEqual => seq![op_byte(OpCode::OpLess), op_byte(OpCode::OpNot)],
        TokenType::Less => seq![op_byte(OpCode::OpLess)],
        _ => seq![op_byte(OpCode::OpGreater), op_byte(OpCode::OpNot)],
    }
}

/// A row of the rule table.
#[derive(Clone, Copy, Debug)]
pub struct ParseRule {
    pub prefix: Option<ParseFn>,
    pub infix: Option<ParseFn>,
    pub precedence: Precedence,
}

impl ParseRule {
    pub fn prefix(&self) -> (r: Result<ParseFn, Error>)
        ensures
            match self.prefix {
                Some(f) => r == Ok::<ParseFn, Error>(f),
                None => r is Err,
            },
    {
        match self.prefix {
            Some(f) => Ok(f),
            None => Err(Error::ParseRuleError { msg: "no prefix rule" }),
        }
    }

    pub fn infix(&self) -> (r: Result<ParseFn, Error>)
        ensures
            match self.infix {
                Some(f) => r == Ok::<ParseFn, Error>(f),
                None => r is Err,
            },
    {
        match self.infix {
            Some(f) => Ok(f),
            None => Err(Error::ParseRuleError { msg: "no infix rule" }),
        }
    }
}

/// The rule table: prefix and infix parse functions and binding power of
/// each token type.
pub fn get_rule(ty: TokenType) -> (r: ParseRule)
    ensures
        r.prefix == prefix_of(ty),
        r.infix == infix_of(ty),
        r.precedence == precedence_of(ty),
{
    let (prefix, infix, precedence) = match ty {
        TokenType::LeftParen => (Some(ParseFn::Grouping), None, Precedence::Call),
        TokenType::Minus => (Some(ParseFn::Unary), Some(ParseFn::Binary), Precedence::Term),
        TokenType::Plus => (None, Some(ParseFn::Binary), Precedence::Term),
        TokenType::Slash | TokenType::Star => (None, Some(ParseFn::Binary), Precedence::Factor),
        TokenType::Bang => (Some(ParseFn::Unary), None, Precedence::Lowest),
        TokenType::BangEqual | TokenType::EqualEqual => (
            None,
            Some(ParseFn::Binary),
            Precedence::Equality,
        ),
        TokenType::Greater | TokenType::GreaterEqual | TokenType::Less | TokenType::LessEqual => (
            None,
            Some(ParseFn::Binary),
            Precedence::Comparison,
        ),
        TokenType::Str => (Some(ParseFn::Str), None, Precedence::Lowest),
        TokenType::Number => (Some(ParseFn::Number), None, Precedence::Lowest),
        TokenType::True | TokenType::False | TokenType::Nil => (
            Some(ParseFn::Literal),
            None,
            Precedence::Lowest,
        ),
        _ => (None, None, Precedence::Lowest),
    };
    ParseRule { prefix, infix, precedence }
}

/// The state after moving on by one token from `c`: where the scanner
/// stands, the type of the new current token, whether a malformed token was
/// passed over on the way, and where the new current token starts.
pub open spec fn advance_spec(src: Seq<u8>, c: int) -> (int, TokenType, bool, int)
    decreases src.len() - c,
{
    let t = next_token(src, c);
    match t.0 {
        Some(ty) => (t.2, ty, false, t.1),
        None => if c < t.2 <= src.len() {
            let a = advance_spec(src, t.2);
            (a.0, a.1, true, a.3)
        } else {
            (t.2, TokenType::Eof, true, t.2)
        },
    }
}

/// Zero for the end of the input, one for any other token.
pub open spec fn pend(t: TokenType) -> int {
    if t == TokenType::Eof {
        0
    } else {
        1
    }
}

/// Parsing state `(c2, t2)` comes strictly after `(c, t)`: further into the
/// input, or at the end of it where `t` was not.
pub open spec fn later(src: Seq<u8>, c2: int, t2: TokenType, c: int, t: TokenType) -> bool {
    c2 <= src.len() && (c2 > c || (c2 == c && pend(t2) < pend(t)))
}

/// The instruction of `true`, `false` or `nil`.
pub open spec fn literal_op(ty: TokenType) -> OpCode {
    match ty {
        TokenType::False => OpCode::OpFalse,
        TokenType::True => OpCode::OpTrue,
        _ => OpCode::OpNil,
    }
}

/// The instruction of a unary operator.
pub open spec fn unary_op(ty: TokenType) -> OpCode {
    if ty == TokenType::Minus {
        OpCode::OpNegate
    } else {
        OpCode::OpNot
    }
}

/// Where and why parsing fails: the span of the token the error is reported
/// at (at the end of the input where the span starts there) and the message.
pub type Fault = (int, int, &'static str);

/// The malformed token that scanning from `c` meets first.
pub open spec fn scan_fault(src: Seq<u8>, c: int) -> Fault {
    let t = next_token(src, c);
    (t.1, t.2, if 0 <= t.1 < src.len() && src[t.1] == QUOTE {
        "Unterminated string"
    } else {
        "unknown token"
    })
}

/// The successful part of a parse.
pub open spec fn parsed(r: Result<(int, TokenType, Seq<u8>, int, Seq<(int, int)>, int), Fault>) -> Option<(int, TokenType, Seq<u8>, int, Seq<(int, int)>, int)> {
    match r {
        Ok(b) => Some(b),
        Err(_) => None,
    }
}

/// The fault of a failed parse.
pub open spec fn fault_of(r: Result<(int, TokenType, Seq<u8>, int, Seq<(int, int)>, int), Fault>) -> Fault {
    match r {
        Ok(_) => (0, 0, ""),
        Err(f) => f,
    }
}

/// The grammar and what it compiles to: parsing an expression whose
/// operators bind at least as tightly as `p`, from scanner position `c` with
/// current token `cur` spanning `s..c` and `n` constants in the pool. The
/// position, current token, code written, size of the pool, the spans of
/// the literals whose constants were added, and the start of the current
/// token after it; or the first fault met.
pub open spec fn parse_result(src: Seq<u8>, c: int, cur: TokenType, s: int, p: Precedence, n: int) -> Result<
    (int, TokenType, Seq<u8>, int, Seq<(int, int)>, int),
    Fault,
>
    decreases src.len() - c, pend(cur), 0int,
{
    if !(0 <= c <= src.len()) {
        Err((c, c, ""))
    } else {
        let a = advance_spec(src, c);
        if a.2 {
            Err(scan_fault(src, c))
        } else {
            match prefix_of(cur) {
                None => Err((s, c, "Expect expression")),
                Some(f) => if !later(src, a.0, a.1, c, cur) {
                    Err((s, c, ""))
                } else {
                    match prefix_result(src, f, cur, s, c, a.0, a.1, a.3, n) {
                        Ok(b) => if later(src, b.0, b.1, c, cur) {
                            match infix_loop_result(src, b.0, b.1, b.5, p, b.3) {
                                Ok(l) => Ok((l.0, l.1, b.2 + l.2, l.3, b.4 + l.4, l.5)),
                                Err(e) => Err(e),
                            }
                        } else {
                            Err((s, c, ""))
                        },
                        Err(e) => Err(e),
                    }
                },
            }
        }
    }
}

/// The rest of a prefix form whose first token, of type `op`, spans
/// `os..oe`.
pub open spec fn prefix_result(
    src: Seq<u8>,
    f: ParseFn,
    op: TokenType,
    os: int,
    oe: int,
    c: int,
    cur: TokenType,
    s: int,
    n: int,
) -> Result<(int, TokenType, Seq<u8>, int, Seq<(int, int)>, int), Fault>
    decreases src.len() - c, pend(cur), 2int,
{
    if !(0 <= c <= src.len()) {
        Err((c, c, ""))
    } else {
        match f {
            ParseFn::Grouping => match parse_result(src, c, cur, s, Precedence::Assignment, n) {
                Ok(b) => if b.1 == TokenType::RightParen {
                    let a = advance_spec(src, b.0);
                    if a.2 {
                        Err(scan_fault(src, b.0))
                    } else {
                        Ok((a.0, a.1, b.2, b.3, b.4, a.3))
                    }
                } else {
                    Err((b.5, b.0, "Expect ')' after expression"))
                },
                Err(e) => Err(e),
            },
            ParseFn::Unary => match parse_result(src, c, cur, s, Precedence::Unary, n) {
                Ok(b) => Ok((b.0, b.1, b.2.push(op_byte(unary_op(op))), b.3, b.4, b.5)),
                Err(e) => Err(e),
            },
            ParseFn::Binary => Err((os, oe, "Expect expression")),
            ParseFn::Literal => Ok((c, cur, seq![op_byte(literal_op(op))], n, Seq::empty(), s)),
            _ => Ok((c, cur, constant_instruction(n), n + 1, seq![(os, oe)], s)),
        }
    }
}

/// Infix operators that bind at least as tightly as `p`, each with its right
/// operand, after a left operand.
pub open spec fn infix_loop_result(src: Seq<u8>, c: int, cur: TokenType, s: int, p: Precedence, n: int) -> Result<
    (int, TokenType, Seq<u8>, int, Seq<(int, int)>, int),
    Fault,
>
    decreases src.len() - c, pend(cur), 1int,
{
    if !(0 <= c <= src.len()) {
        Err((c, c, ""))
    } else if level(p) > level(precedence_of(cur)) {
        Ok((c, cur, Seq::<u8>::empty(), n, Seq::empty(), s))
    } else {
        let a = advance_spec(src, c);
        if a.2 {
            Err(scan_fault(src, c))
        } else if infix_of(cur) != Some(ParseFn::Binary) {
            Err((s, c, "Expect expression"))
        } else if !later(src, a.0, a.1, c, cur) {
            Err((s, c, ""))
        } else {
            match parse_result(src, a.0, a.1, a.3, next_level(precedence_of(cur)), n) {
                Ok(b) => if later(src, b.0, b.1, c, cur) {
                    match infix_loop_result(src, b.0, b.1, b.5, p, b.3) {
                        Ok(l) => Ok((l.0, l.1, b.2 + binary_code(cur) + l.2, l.3, b.4 + l.4, l.5)),
                        Err(e) => Err(e),
                    }
                } else {
                    Err((s, c, ""))
                },
                Err(e) => Err(e),
            }
        }
    }
}

/// A parse that continues one whose code so far is `code` and whose
/// literals so far are `lits`.
pub open spec fn continued(code: Seq<u8>, lits: Seq<(int, int)>, r: Result<(int, TokenType, Seq<u8>, int, Seq<(int, int)>, int), Fault>) -> Result<
    (int, TokenType, Seq<u8>, int, Seq<(int, int)>, int),
    Fault,
> {
    match r {
        Ok(l) => Ok((l.0, l.1, code + l.2, l.3, lits + l.4, l.5)),
        Err(e) => Err(e),
    }
}

/// `parse_result` where it succeeds.
pub open spec fn parse_spec(src: Seq<u8>, c: int, cur: TokenType, s: int, p: Precedence, n: int) -> Option<
    (int, TokenType, Seq<u8>, int, Seq<(int, int)>, int),
> {
    parsed(parse_result(src, c, cur, s, p, n))
}

/// `prefix_result` where it succeeds.
pub open spec fn prefix_spec(
    src: Seq<u8>,
    f: ParseFn,
    op: TokenType,
    os: int,
    oe: int,
    c: int,
    cur: TokenType,
    s: int,
    n: int,
) -> Option<(int, TokenType, Seq<u8>, int, Seq<(int, int)>, int)> {
    parsed(prefix_result(src, f, op, os, oe, c, cur, s, n))
}

/// `infix_loop_result` where it succeeds.
pub open spec fn infix_loop_spec(src: Seq<u8>, c: int, cur: TokenType, s: int, p: Precedence, n: int) -> Option<
    (int, TokenType, Seq<u8>, int, Seq<(int, int)>, int),
> {
    parsed(infix_loop_result(src, c, cur, s, p, n))
}

/// The right operand of binary operator `op` and then the operator itself.
pub open spec fn binary_spec(src: Seq<u8>, op: TokenType, c: int, cur: TokenType, s: int, n: int) -> Option<
    (int, TokenType, Seq<u8>, int, Seq<(int, int)>, int),
> {
    match parse_spec(src, c, cur, s, next_level(precedence_of(op)), n) {
        Some(b) => Some((b.0, b.1, b.2 + binary_code(op), b.3, b.4, b.5)),
        None => None,
    }
}

/// A parse that succeeds with its constants within the pool's size.
pub open spec fn fits(o: Option<(int, TokenType, Seq<u8>, int, Seq<(int, int)>, int)>) -> bool {
    o matches Some(b) && b.3 <= MAX_CONSTANTS
}

/// Parsing the expression at position `c` on, with `n` constants in the
/// pool before.
pub open spec fn parse_from(src: Seq<u8>, c: int, n: int) -> Option<(int, TokenType, Seq<u8>, int, Seq<(int, int)>, int)> {
    let a = advance_spec(src, c);
    parse_spec(src, a.0, a.1, a.3, Precedence::Assignment, n)
}

/// The input from position `c` on is one well-formed expression and then
/// its end, with no malformed token; `n` constants are in the pool before.
pub open spec fn compiles_from(src: Seq<u8>, c: int, n: int) -> bool {
    &&& !advance_spec(src, c).2
    &&& parse_from(src, c, n) matches Some(b)
    &&& b.1 == TokenType::Eof
}

/// The expression at position `c` on parses, its first token is well
/// formed, and its constants, after `n` already in the pool, fit the pool.
pub open spec fn fits_from(src: Seq<u8>, c: int, n: int) -> bool {
    &&& !advance_spec(src, c).2
    &&& fits(parse_from(src, c, n))
}

/// The code of the expression at position `c` on, where it compiles.
pub open spec fn code_from(src: Seq<u8>, c: int, n: int) -> Seq<u8> {
    parse_from(src, c, n).unwrap().2
}

/// The spans of the literals of the expression at position `c` on, one for
/// each constant it adds, in order.
pub open spec fn literals_from(src: Seq<u8>, c: int, n: int) -> Seq<(int, int)> {
    parse_from(src, c, n).unwrap().4
}

/// The bits of a number value.
pub open spec fn number_bits(v: ValueModel) -> u64 {
    match v {
        ValueModel::Number(x) => x,
        _ => 0,
    }
}

/// Constant `v` is that of the literal at `span`: a string's bytes between
/// its quotes, or the number that `parse` gave for a number's bytes.
pub open spec fn constant_of<P: Fn(&Vec<u8>) -> u64>(
    src: Seq<u8>,
    span: (int, int),
    v: ValueModel,
    parse: &P,
) -> bool {
    if 0 <= span.0 < src.len() && src[span.0] == QUOTE {
        v == ValueModel::Str(src.subrange(span.0 + 1, span.1 - 1))
    } else {
        v is Number && exists|l: Vec<u8>|
            l@ == src.subrange(span.0, span.1) && #[trigger] parse.ensures((&l,), number_bits(v))
    }
}

/// The first fault of the input from position `c` on as one expression and
/// then its end.
pub open spec fn compile_fault(src: Seq<u8>, c: int, n: int) -> Fault {
    let a = advance_spec(src, c);
    if a.2 {
        scan_fault(src, c)
    } else {
        match parse_result(src, a.0, a.1, a.3, Precedence::Assignment, n) {
            Err(f) => f,
            Ok(b) => (b.5, b.0, "Expect end of expression"),
        }
    }
}

/// `src` is one well-formed expression.
pub open spec fn compiles(src: Seq<u8>) -> bool {
    compiles_from(src, 0, 0)
}

/// Which of the two buffered tokens an error is reported at.
#[derive(Clone, Copy, Debug, PartialEq, Eq, Structural)]
enum TokenPosition {
    Current,
    Previous,
}

/// `report` is the error of fault `f`: on the line of the token's end, at
/// the end of the input or at the token's bytes, with the fault's message.
pub open spec fn reported(report: Option<Error>, src: Seq<u8>, f: Fault) -> bool {
    &&& report matches Some(Error::CompileError { line, site, msg })
    &&& line as int == 1 + newlines(src.subrange(0, f.1))
    &&& msg == f.2
    &&& f.0 >= src.len() ==> site == Site::End
    &&& f.0 < src.len() ==> (site matches Site::Lexeme(b) && b@ == src.subrange(f.0, f.1))
}

/// A token that the scanner produced: its line is at least one and its bytes
/// fit its type.
pub open spec fn scanned(t: Token) -> bool {
    t.line >= 1 && lexeme_of_kind(t.ty, t.lexeme@)
}

struct Parser<'a> {
    scanner: Scanner<'a>,
    current: Option<Token>,
    previous: Option<Token>,
    had_error: bool,
    panic_mode: bool,
    report: Option<Error>,
    /// Where the previous token lies in the source.
    prev_span: Ghost<(int, int)>,
}

impl<'a> Parser<'a> {
    spec fn inv(&self) -> bool {
        &&& self.scanner.wf()
        &&& (self.current matches Some(t) ==> scanned(t) && (t.ty == TokenType::Eof
            ==> self.scanner.current_view() == self.scanner.source_view().len()) && t.lexeme@
            == self.scanner.source_view().subrange(
            self.scanner.start_view(),
            self.scanner.current_view(),
        ))
        &&& (self.previous matches Some(t) ==> scanned(t) && 0 <= self.prev_span@.0
            <= self.prev_span@.1 <= self.scanner.source_view().len() && t.lexeme@
            == self.scanner.source_view().subrange(self.prev_span@.0, self.prev_span@.1))
        &&& (self.current matches Some(t) ==> t.line as int == 1 + newlines(
            self.scanner.source_view().subrange(0, self.scanner.current_view()),
        ) && (t.ty == TokenType::Eof <==> self.scanner.start_view()
            == self.scanner.source_view().len()))
        &&& (self.previous matches Some(t) ==> t.line as int == 1 + newlines(
            self.scanner.source_view().subrange(0, self.prev_span@.1),
        ) && (t.ty == TokenType::Eof <==> self.prev_span@.0 == self.scanner.source_view().len()))
        &&& (self.panic_mode == self.had_error)
        &&& 0 <= self.prev_span@.0 <= self.prev_span@.1 <= self.scanner.source_view().len()
        &&& (self.had_error <==> self.report is Some)
        &&& (self.report matches Some(e) ==> e is CompileError)
    }

    spec fn src(&self) -> Seq<u8> {
        self.scanner.source_view()
    }

    /// Where the current token starts.
    spec fn start(&self) -> int {
        self.scanner.start_view()
    }

    /// Where the scanner stands.
    spec fn pos(&self) -> int {
        self.scanner.current_view()
    }

    /// The type of the current token.
    spec fn cur(&self) -> TokenType {
        self.current.unwrap().ty
    }

    /// Input not read yet.
    spec fn remaining(&self) -> int {
        self.scanner.source_view().len() - self.scanner.current_view()
    }

    /// Zero once the current token is the end of the input.
    spec fn pending(&self) -> int {
        if self.current matches Some(t) && t.ty == TokenType::Eof {
            0
        } else {
            1
        }
    }

    spec fn no_later_than(&self, other: &Parser) -> bool {
        self.remaining() < other.remaining() || (self.remaining() == other.remaining()
            && self.pending() <= other.pending())
    }

    spec fn before(&self, other: &Parser) -> bool {
        self.remaining() < other.remaining() || (self.remaining() == other.remaining()
            && self.pending() < other.pending())
    }

    /// What every step of the parser keeps: the invariant, the source, and
    /// errors once recorded.
    spec fn follows(&self, before: &Parser) -> bool {
        &&& self.inv()
        &&& self.scanner.source_view() == before.scanner.source_view()
        &&& self.no_later_than(before)
        &&& (before.had_error ==> self.had_error)
        &&& (before.had_error ==> self.report == before.report)
    }

    fn new(scanner: Scanner<'a>) -> (r: Self)
        requires
            scanner.wf(),
        ensures
            r.inv(),
            r.scanner == scanner,
            r.current is None,
            r.previous is None,
            r.prev_span@ == (0int, 0int),
            !r.had_error,
    {
        Parser {
            scanner,
            current: None,
            previous: None,
            had_error: false,
            panic_mode: false,
            report: None,
            prev_span: Ghost((0, 0)),
        }
    }

    fn error_at_current(&mut self, msg: &'static str)
        requires
            old(self).inv(),
            old(self).current is Some,
        ensures
            !old(self).had_error ==> reported(
                final(self).report,
                old(self).src(),
                (old(self).start(), old(self).pos(), msg),
            ),
            final(self).prev_span == old(self).prev_span,
            final(self).follows(old(self)),
            final(self).had_error,
            final(self).current == old(self).current,
            final(self).previous == old(self).previous,
            final(self).scanner == old(self).scanner,
    {
        self.error_at(TokenPosition::Current, msg)
    }

    fn error(&mut self, msg: &'static str)
        requires
            old(self).inv(),
            old(self).previous is Some,
        ensures
            !old(self).had_error ==> reported(
                final(self).report,
                old(self).src(),
                (old(self).prev_span@.0, old(self).prev_span@.1, msg),
            ),
            final(self).prev_span == old(self).prev_span,
            final(self).follows(old(self)),
            final(self).had_error,
            final(self).current == old(self).current,
            final(self).previous == old(self).previous,
            final(self).scanner == old(self).scanner,
    {
        self.error_at(TokenPosition::Previous, msg)
    }

    /// Records an error on one line, unless one was recorded already.
    fn report_error(&mut self, line: u32, site: Site, msg: &'static str)
        requires
            old(self).inv(),
        ensures
            final(self).prev_span == old(self).prev_span,
            !old(self).panic_mode ==> final(self).report == Some(
                (Error::CompileError { line, site, msg }),
            ),
            old(self).panic_mode ==> final(self).report == old(self).report,
            final(self).follows(old(self)),
            final(self).had_error,
            final(self).panic_mode,
            final(self).current == old(self).current,
            final(self).previous == old(self).previous,
            final(self).scanner == old(self).scanner,
    {
        if self.panic_mode {
            return;
        }
        self.panic_mode = true;
        self.report = Some(Error::CompileError { line, site, msg });
        self.had_error = true;
    }

    /// Records an error at a token: at its bytes, or at the end of the
    /// input.
    fn error_at(&mut self, pos: TokenPosition, msg: &'static str)
        requires
            old(self).inv(),
            pos == TokenPosition::Current ==> old(self).current is Some,
            pos == TokenPosition::Previous ==> old(self).previous is Some,
        ensures
            final(self).prev_span == old(self).prev_span,
            old(self).panic_mode ==> final(self).report == old(self).report,
            !old(self).panic_mode ==> ({
                let t = if pos == TokenPosition::Current {
                    old(self).current.unwrap()
                } else {
                    old(self).previous.unwrap()
                };
                &&& final(self).report matches Some(Error::CompileError { line, site, msg: m })
                &&& line == t.line
                &&& m == msg
                &&& t.ty == TokenType::Eof ==> site == Site::End
                &&& t.ty != TokenType::Eof ==> (site matches Site::Lexeme(b) && b@ == t.lexeme@)
            }),
            final(self).follows(old(self)),
            final(self).had_error,
            final(self).current == old(self).current,
            final(self).previous == old(self).previous,
            final(self).scanner == old(self).scanner,
    {
        if self.panic_mode {
            return;
        }
        let token = match pos {
            TokenPosition::Current => self.current(),
            TokenPosition::Previous => self.previous(),
        };
        let (line, site) = match token {
            Ok(t) => {
                if t.ty == TokenType::Eof {
                    (t.line, Site::End)
                } else {
                    (t.line, Site::Lexeme(t.lexeme.clone()))
                }
            },
            Err(_) => (1, Site::End),
        };
        self.report_error(line, site, msg);
    }

    /// Reads a token of type `ty`, or records `msg` as an error.
    fn consume(&mut self, ty: TokenType, msg: &'static str)
        requires
            old(self).inv(),
            old(self).current is Some,
        ensures
            !old(self).had_error && old(self).current.unwrap().ty != ty ==> reported(
                final(self).report,
                old(self).src(),
                (old(self).start(), old(self).pos(), msg),
            ),
            !old(self).had_error && old(self).current.unwrap().ty == ty && advance_spec(
                old(self).src(),
                old(self).pos(),
            ).2 ==> reported(
                final(self).report,
                old(self).src(),
                scan_fault(old(self).src(), old(self).pos()),
            ),
            final(self).follows(old(self)),
            final(self).current is Some,
            old(self).previous is Some ==> final(self).previous is Some,
            old(self).current.unwrap().ty != ty ==> final(self).had_error,
            old(self).current.unwrap().ty != ty ==> final(self).prev_span == old(self).prev_span
                && final(self).scanner == old(self).scanner,
            old(self).current.unwrap().ty == ty ==> ({
                let a = advance_spec(old(self).src(), old(self).pos());
                final(self).pos() == a.0 && final(self).cur() == a.1 && final(self).had_error == (old(
                    self,
                ).had_error || a.2) && final(self).start() == a.3 && final(self).prev_span@ == (old(
                    self,
                ).start(), old(self).pos()) && final(self).start() >= old(self).pos()
            }),
    {
        if self.current_type() == ty {
            self.advance();
            return;
        }
        self.error_at_current(msg)
    }

    /// Moves on by one token; a malformed token is recorded as an error and
    /// passed over.
    fn advance(&mut self)
        requires
            old(self).inv(),
        ensures
            final(self).follows(old(self)),
            final(self).previous == old(self).current,
            final(self).current is Some,
            old(self).pending() == 1 ==> final(self).before(old(self)),
            ({
                let a = advance_spec(old(self).src(), old(self).pos());
                final(self).pos() == a.0 && final(self).cur() == a.1 && final(self).had_error == (old(
                    self,
                ).had_error || a.2) && final(self).start() == a.3
            }),
            final(self).prev_span@ == (old(self).start(), old(self).pos()),
            final(self).start() >= old(self).pos(),
            !old(self).had_error && advance_spec(old(self).src(), old(self).pos()).2 ==> reported(
                final(self).report,
                old(self).src(),
                scan_fault(old(self).src(), old(self).pos()),
            ),
    {
        self.prev_span = Ghost((self.scanner.start_view(), self.scanner.current_view()));
        let ghost entry = *self;
        let ghost mut bad = false;
        std::mem::swap(&mut self.previous, &mut self.current);
        self.current = None;
        loop
            invariant_except_break
                self.current is None,
                !bad ==> self.pos() == entry.pos(),
                advance_spec(entry.src(), entry.pos()) == ({
                    let a = advance_spec(self.src(), self.pos());
                    (a.0, a.1, bad || a.2, a.3)
                }),
            invariant
                self.inv(),
                self.scanner.source_view() == entry.scanner.source_view(),
                self.previous == entry.current,
                self.prev_span == entry.prev_span,
                self.pos() >= entry.pos(),
                entry.had_error ==> self.had_error,
                entry.had_error ==> self.report == entry.report,
                !entry.had_error && bad ==> reported(
                    self.report,
                    entry.src(),
                    scan_fault(entry.src(), entry.pos()),
                ),
                self.remaining() <= entry.remaining(),
                self.had_error == (entry.had_error || bad),
            ensures
                advance_spec(entry.src(), entry.pos()) == (self.pos(), self.cur(), bad, self.start()),
                self.prev_span == entry.prev_span,
                self.start() >= entry.pos(),
                entry.had_error ==> self.report == entry.report,
                !entry.had_error && bad ==> reported(
                    self.report,
                    entry.src(),
                    scan_fault(entry.src(), entry.pos()),
                ),
                self.had_error == (entry.had_error || bad),
                self.inv(),
                self.scanner.source_view() == entry.scanner.source_view(),
                self.previous == entry.current,
                self.current is Some,
                entry.had_error ==> self.had_error,
                self.remaining() <= entry.remaining(),
                self.pending() == 1 ==> self.remaining() < entry.remaining(),
            decreases self.remaining(),
        {
            match self.scanner.scan_token() {
                Ok(t) => {
                    proof {
                        if t.ty != TokenType::Eof {
                            assert(t.lexeme@.len() > 0);
                        }
                    }
                    self.current = Some(t);
                    break ;
                },
                Err(e) => {
                    let line = match e {
                        Error::ScanError { line, msg: _ } => line,
                        _ => 1,
                    };
                    let msg = match e {
                        Error::ScanError { line: _, msg } => msg,
                        _ => "unknown token",
                    };
                    let lexeme = self.scanner.lexeme();
                    self.report_error(line, Site::Lexeme(lexeme), msg);
                    proof {
                        bad = true;
                    }
                },
            }
        }
    }

    fn previous(&self) -> (r: Result<&Token, Error>)
        ensures
            match self.previous {
                Some(t) => r == Ok::<&Token, Error>(&t),
                None => r is Err,
            },
    {
        match &self.previous {
            Some(t) => Ok(t),
            None => Err(Error::ParseError { msg: "no previous token" }),
        }
    }

    fn current(&self) -> (r: Result<&Token, Error>)
        ensures
            match self.current {
                Some(t) => r == Ok::<&Token, Error>(&t),
                None => r is Err,
            },
    {
        match &self.current {
            Some(t) => Ok(t),
            None => Err(Error::ParseError { msg: "no current token" }),
        }
    }

    fn current_type(&self) -> (r: TokenType)
        requires
            self.current is Some,
        ensures
            r == self.current.unwrap().ty,
    {
        match &self.current {
            Some(t) => t.ty,
            None => TokenType::Eof,
        }
    }

    fn previous_type(&self) -> (r: TokenType)
        requires
            self.previous is Some,
        ensures
            r == self.previous.unwrap().ty,
    {
        match &self.previous {
            Some(t) => t.ty,
            None => TokenType::Eof,
        }
    }

    /// The line of the token read last.
    fn line(&self) -> (r: u32)
        requires
            self.inv(),
            self.previous is Some,
        ensures
            r == self.previous.unwrap().line,
            r >= 1,
    {
        match &self.previous {
            Some(t) => t.line,
            None => 1,
        }
    }
}

/// `longer` starts with `shorter`.
pub open spec fn extends<A>(longer: Seq<A>, shorter: Seq<A>) -> bool {
    &&& shorter.len() <= longer.len()
    &&& forall|i: int| 0 <= i < shorter.len() ==> #[trigger] longer[i] == shorter[i]
}

/// Every line number is at least one.
pub open spec fn lines_positive(lines: Seq<u32>) -> bool {
    forall|i: int| 0 <= i < lines.len() ==> #[trigger] lines[i] >= 1
}

/// The code that compiling one expression appends: the expression, then
/// `Return`.
pub open spec fn compiled_expression(code: Seq<u8>, n: int) -> bool {
    &&& code.len() >= 1
    &&& code.last() == op_byte(OpCode::OpReturn)
    &&& expression_code(code.drop_last(), n)
}

proof fn lemma_binary_code(ty: TokenType, n: int)
    requires
        infix_of(ty) == Some(ParseFn::Binary),
    ensures
        stack_after(binary_code(ty), 2, n) == Some(1int),
{
    let code = binary_code(ty);
    let first = match ty {
        TokenType::Plus => OpCode::OpAdd,
        TokenType::Minus => OpCode::OpSubtract,
        TokenType::Star => OpCode::OpMultiply,
        TokenType::Slash => OpCode::OpDivide,
        TokenType::EqualEqual | TokenType::BangEqual => OpCode::OpEqual,
        TokenType::Greater | TokenType::LessEqual => OpCode::OpGreater,
        _ => OpCode::OpLess,
    };
    lemma_simple_instruction(first, 2, n);
    if code.len() == 2 {
        lemma_simple_instruction(OpCode::OpNot, 1, n);
        lemma_stack_after_concat(seq![op_byte(first)], seq![op_byte(OpCode::OpNot)], 2, n);
        assert(seq![op_byte(first)] + seq![op_byte(OpCode::OpNot)] =~= code);
    } else {
        assert(seq![op_byte(first)] =~= code);
    }
}

/// An expression followed by code that takes one value and leaves one is an
/// expression.
proof fn lemma_then_operator(a: Seq<u8>, b: Seq<u8>, n0: int, n: int)
    requires
        expression_code(a, n0),
        n0 <= n,
        operator_code(b, n),
    ensures
        expression_code(a + b, n),
{
    lemma_stack_after_more_constants(a, 0, n0, n);
    lemma_stack_after_concat(a, b, 0, n);
}

/// The right operand of an infix operator, then its instructions, take the
/// left operand and leave one value.
proof fn lemma_operator(rhs: Seq<u8>, ops: Seq<u8>, n0: int, n: int)
    requires
        expression_code(rhs, n0),
        n0 <= n,
        stack_after(ops, 2, n) == Some(1int),
    ensures
        operator_code(rhs + ops, n),
{
    lemma_stack_after_more_constants(rhs, 0, n0, n);
    lemma_stack_after_deeper(rhs, 0, 1, n);
    lemma_stack_after_concat(rhs, ops, 1, n);
}

/// An expression followed by a unary operator is an expression.
proof fn lemma_then_unary(a: Seq<u8>, op: OpCode, n0: int, n: int)
    requires
        expression_code(a, n0),
        n0 <= n,
        op == OpCode::OpNegate || op == OpCode::OpNot,
    ensures
        expression_code(a + seq![op_byte(op)], n),
{
    lemma_stack_after_more_constants(a, 0, n0, n);
    lemma_simple_instruction(op, 1, n);
    lemma_stack_after_concat(a, seq![op_byte(op)], 0, n);
}

/// The code of a parsed expression leaves one value.
proof fn lemma_parse_code(src: Seq<u8>, c: int, cur: TokenType, s: int, p: Precedence, n: int)
    requires
        0 <= n,
        parse_spec(src, c, cur, s, p, n) is Some,
    ensures
        n <= parse_spec(src, c, cur, s, p, n).unwrap().3,
        parse_spec(src, c, cur, s, p, n).unwrap().3 <= MAX_CONSTANTS ==> expression_code(
            parse_spec(src, c, cur, s, p, n).unwrap().2,
            parse_spec(src, c, cur, s, p, n).unwrap().3,
        ),
    decreases src.len() - c, pend(cur), 0int,
{
    let f = prefix_of(cur).unwrap();
    let a = advance_spec(src, c);
    let b = prefix_spec(src, f, cur, s, c, a.0, a.1, a.3, n).unwrap();
    let l = infix_loop_spec(src, b.0, b.1, b.5, p, b.3).unwrap();
    lemma_prefix_code(src, f, cur, s, c, a.0, a.1, a.3, n);
    lemma_infix_code(src, b.0, b.1, b.5, p, b.3);
    if l.3 <= MAX_CONSTANTS {
        lemma_then_operator(b.2, l.2, b.3, l.3);
    }
}

/// The code of a prefix form leaves one value.
proof fn lemma_prefix_code(
    src: Seq<u8>,
    f: ParseFn,
    op: TokenType,
    os: int,
    oe: int,
    c: int,
    cur: TokenType,
    s: int,
    n: int,
)
    requires
        0 <= n,
        prefix_spec(src, f, op, os, oe, c, cur, s, n) is Some,
    ensures
        n <= prefix_spec(src, f, op, os, oe, c, cur, s, n).unwrap().3,
        prefix_spec(src, f, op, os, oe, c, cur, s, n).unwrap().3 <= MAX_CONSTANTS ==> expression_code(
            prefix_spec(src, f, op, os, oe, c, cur, s, n).unwrap().2,
            prefix_spec(src, f, op, os, oe, c, cur, s, n).unwrap().3,
        ),
    decreases src.len() - c, pend(cur), 2int,
{
    match f {
        ParseFn::Grouping => {
            lemma_parse_code(src, c, cur, s, Precedence::Assignment, n);
        },
        ParseFn::Unary => {
            lemma_parse_code(src, c, cur, s, Precedence::Unary, n);
            let b = parse_spec(src, c, cur, s, Precedence::Unary, n).unwrap();
            if b.3 <= MAX_CONSTANTS {
                lemma_then_unary(b.2, unary_op(op), b.3, b.3);
            }
            assert(b.2.push(op_byte(unary_op(op))) =~= b.2 + seq![op_byte(unary_op(op))]);
        },
        ParseFn::Literal => {
            lemma_simple_instruction(literal_op(op), 0, n);
        },
        ParseFn::Binary => {},
        _ => {
            if n + 1 <= MAX_CONSTANTS {
                lemma_constant_instruction(n, 0, n + 1);
            }
        },
    }
}

/// The code of infix operators with their right operands takes the left
/// operand and leaves one value.
proof fn lemma_infix_code(src: Seq<u8>, c: int, cur: TokenType, s: int, p: Precedence, n: int)
    requires
        0 <= n,
        infix_loop_spec(src, c, cur, s, p, n) is Some,
    ensures
        n <= infix_loop_spec(src, c, cur, s, p, n).unwrap().3,
        infix_loop_spec(src, c, cur, s, p, n).unwrap().3 <= MAX_CONSTANTS ==> operator_code(
            infix_loop_spec(src, c, cur, s, p, n).unwrap().2,
            infix_loop_spec(src, c, cur, s, p, n).unwrap().3,
        ),
    decreases src.len() - c, pend(cur), 1int,
{
    if level(p) > level(precedence_of(cur)) {
        assert(stack_after(Seq::<u8>::empty(), 1, n) == Some(1int));
    } else {
        let a = advance_spec(src, c);
        let next = next_level(precedence_of(cur));
        let b = parse_spec(src, a.0, a.1, a.3, next, n).unwrap();
        let l = infix_loop_spec(src, b.0, b.1, b.5, p, b.3).unwrap();
        lemma_parse_code(src, a.0, a.1, a.3, next, n);
        lemma_infix_code(src, b.0, b.1, b.5, p, b.3);
        if l.3 <= MAX_CONSTANTS {
            lemma_binary_code(cur, l.3);
            lemma_operator(b.2, binary_code(cur), b.3, l.3);
            let rhs = b.2 + binary_code(cur);
            lemma_stack_after_concat(rhs, l.2, 1, l.3);
        }
    }
}

/// What a well-formed expression compiles to, run from an empty stack,
/// leaves exactly one value, which its `Return` then takes: so it is code on
/// which the machine's `run` ends with an empty stack. Holds where the
/// expression's constants fit the pool.
pub proof fn lemma_expression_leaves_one_value(src: Seq<u8>)
    requires
        compiles(src),
        fits_from(src, 0, 0),
    ensures
        compiled_expression(
            code_from(src, 0, 0).push(op_byte(OpCode::OpReturn)),
            parse_from(src, 0, 0).unwrap().3,
        ),
{
    let a = advance_spec(src, 0);
    lemma_parse_code(src, a.0, a.1, a.3, Precedence::Assignment, 0);
    let code = code_from(src, 0, 0);
    assert(code.push(op_byte(OpCode::OpReturn)).drop_last() =~= code);
}

/// Compiles an expression from source text into a chunk.
pub struct Compiler<'a> {
    parser: Parser<'a>,
    chunk: Chunk,
    /// The span in the source of the literal of each constant.
    lits: Ghost<Seq<(int, int)>>,
    /// The size of the pool when compiling began.
    base: Ghost<int>,
}

impl<'a> Compiler<'a> {
    spec fn inv(&self) -> bool {
        &&& self.parser.inv()
        &&& self.chunk.wf()
        &&& lines_positive(self.chunk.lines_view())
        &&& self.lits@.len() == self.chunk.constants_view().len()
        &&& self.parser.prev_span@.1 <= self.parser.start()
        &&& 0 <= self.base@ <= self.n_constants()
        &&& self.n_constants() > self.base@ ==> self.lits@[self.n_constants() - 1].1 >= self.n_constants()
            - self.base@
        &&& self.n_constants() > self.base@ ==> (self.lits@[self.n_constants() - 1]
            == self.parser.prev_span@ || self.lits@[self.n_constants() - 1].1
            <= self.parser.prev_span@.0)
    }

    /// No constant was added for the previous token yet.
    spec fn fresh_literal(&self) -> bool {
        self.n_constants() == self.base@ || self.lits@[self.n_constants() - 1].1
            <= self.parser.prev_span@.0
    }

    /// The pool began so full that the source's literals could fill it.
    spec fn pool_can_fill(&self) -> bool {
        self.base@ + self.parser.src().len() >= MAX_CONSTANTS
    }

    /// The parser and the chunk are consistent.
    pub closed spec fn wf(&self) -> bool {
        self.inv()
    }

    /// The chunk written so far.
    pub closed spec fn chunk_view(&self) -> Chunk {
        self.chunk
    }

    /// The first error that compiling recorded, if any.
    pub closed spec fn error_view(&self) -> Option<Error> {
        self.parser.report
    }

    /// The source text.
    pub closed spec fn source_view(&self) -> Seq<u8> {
        self.parser.scanner.source_view()
    }

    /// How far the scanner has read.
    pub closed spec fn position(&self) -> int {
        self.parser.scanner.current_view()
    }

    /// Where parsing stands: scanner position and current token, or `None`
    /// once an error was recorded.
    spec fn outcome(&self, before: &Compiler) -> Option<(int, TokenType, Seq<u8>, int, Seq<(int, int)>, int)> {
        if self.parser.had_error {
            None
        } else {
            Some((
                self.parser.pos(),
                self.parser.cur(),
                self.emitted(before),
                self.n_constants(),
                self.lits@.subrange(before.n_constants(), self.n_constants()),
                self.parser.start(),
            ))
        }
    }

    /// The constants added since `before` are those of their literals.
    spec fn constants_since<P: Fn(&Vec<u8>) -> u64>(&self, before: &Compiler, parse: &P) -> bool {
        forall|k: int|
            before.n_constants() <= k < self.n_constants() ==> #[trigger] constant_of(
                self.parser.src(),
                self.lits@[k],
                self.chunk.constants_view()[k],
                parse,
            )
    }

    spec fn code(&self) -> Seq<u8> {
        self.chunk.code_view()
    }

    spec fn n_constants(&self) -> int {
        self.chunk.constants_view().len() as int
    }

    /// What every parse step keeps: the invariants, the code and constants
    /// written before, and a current token.
    spec fn follows(&self, before: &Compiler) -> bool {
        &&& self.inv()
        &&& self.parser.follows(&before.parser)
        &&& extends(self.code(), before.code())
        &&& extends(self.chunk.constants_view(), before.chunk.constants_view())
        &&& extends(self.chunk.lines_view(), before.chunk.lines_view())
        &&& extends(self.lits@, before.lits@)
        &&& self.base == before.base
        &&& self.parser.current is Some
        &&& (before.parser.previous is Some ==> self.parser.previous is Some)
    }

    /// The code written since `before`.
    spec fn emitted(&self, before: &Compiler) -> Seq<u8> {
        self.code().subrange(before.code().len() as int, self.code().len() as int)
    }

    pub fn new(source: &'a [u8], chunk: Chunk) -> (r: Self)
        requires
            source@.len() < u32::MAX,
            chunk.wf(),
            lines_positive(chunk.lines_view()),
        ensures
            r.wf(),
            r.chunk_view() == chunk,
            r.error_view() is None,
            r.source_view() == source@,
            r.position() == 0,
    {
        let scanner = Scanner::new(source);
        let ghost n = chunk.constants_view().len();
        Compiler {
            parser: Parser::new(scanner),
            chunk,
            lits: Ghost(Seq::new(n, |_i: int| (0int, 0int))),
            base: Ghost(n as int),
        }
    }

    /// Compiles one expression followed by the end of the input, then
    /// `Return`. `Ok(true)` when no error was recorded; `Ok(false)` when one
    /// was, which `error_report` gives; `Err` when a number literal could not
    /// be read.
    #[verifier::rlimit(80)]
    pub fn compile<P: Fn(&Vec<u8>) -> u64>(&mut self, parse: &P) -> (r: Result<bool, Error>)
        requires
            old(self).wf(),
            forall|s: &Vec<u8>| parse.requires((s,)),
        ensures
            final(self).wf(),
            final(self).chunk_view().wf(),
            lines_positive(final(self).chunk_view().lines_view()),
            extends(final(self).chunk_view().code_view(), old(self).chunk_view().code_view()),
            extends(
                final(self).chunk_view().constants_view(),
                old(self).chunk_view().constants_view(),
            ),
            extends(final(self).chunk_view().lines_view(), old(self).chunk_view().lines_view()),
            final(self).error_view() matches Some(e) ==> e is CompileError,
            r matches Ok(ok) ==> (ok <==> final(self).error_view() is None),
            r matches Ok(ok) ==> (ok <==> compiles_from(
                old(self).source_view(),
                old(self).position(),
                old(self).chunk_view().constants_view().len() as int,
            )),
            r == Ok::<bool, Error>(true) ==> ({
                let src = old(self).source_view();
                let n0 = old(self).chunk_view().constants_view().len() as int;
                let lits = literals_from(src, old(self).position(), n0);
                &&& final(self).chunk_view().constants_view().len() == n0 + lits.len()
                &&& forall|k: int|
                    0 <= k < lits.len() ==> #[trigger] constant_of(
                        src,
                        lits[k],
                        final(self).chunk_view().constants_view()[n0 + k],
                        parse,
                    )
            }),
            r == Ok::<bool, Error>(true) ==> final(self).chunk_view().code_view() == old(
                self,
            ).chunk_view().code_view() + code_from(
                old(self).source_view(),
                old(self).position(),
                old(self).chunk_view().constants_view().len() as int,
            ).push(op_byte(OpCode::OpReturn)),
            r matches Err(e) ==> aborts_compile(e),
            r == Ok::<bool, Error>(false) ==> reported(
                final(self).error_view(),
                old(self).source_view(),
                compile_fault(
                    old(self).source_view(),
                    old(self).position(),
                    old(self).chunk_view().constants_view().len() as int,
                ),
            ),
            r is Err ==> old(self).chunk_view().constants_view().len() + old(self).source_view().len()
                >= MAX_CONSTANTS,
            r is Err ==> !fits_from(
                old(self).source_view(),
                old(self).position(),
                old(self).chunk_view().constants_view().len() as int,
            ),
            compiles_from(old(self).source_view(), old(self).position(), old(self).chunk_view().constants_view().len() as int)
                && fits_from(old(self).source_view(), old(self).position(), old(self).chunk_view().constants_view().len() as int)
                ==> r == Ok::<bool, Error>(true),
            r == Ok::<bool, Error>(true) ==> compiled_expression(
                final(self).chunk_view().code_view().subrange(
                    old(self).chunk_view().code_view().len() as int,
                    final(self).chunk_view().code_view().len() as int,
                ),
                final(self).chunk_view().constants_view().len() as int,
            ),
    {
        let ghost entry = *self;
        self.parser.had_error = false;
        self.parser.panic_mode = false;
        self.parser.report = None;
        self.parser.advance();
        let ghost started = *self;
        expression(self, parse)?;
        let ghost parsed = *self;
        proof {
            if !parsed.parser.had_error && parsed.parser.cur() == TokenType::Eof {
                let src = parsed.parser.src();
                assert(skip_from(src, src.len() as int, false) == src.len());
                assert(advance_spec(src, parsed.parser.pos()) == (
                    src.len() as int,
                    TokenType::Eof,
                    false,
                    src.len() as int,
                ));
            }
        }
        self.parser.consume(TokenType::Eof, "Expect end of expression");
        self.end();
        proof {
            if !self.parser.had_error {
                let a = parsed.emitted(&started);
                assert(self.emitted(&entry) =~= a.push(op_byte(OpCode::OpReturn)));
                assert(self.emitted(&entry).drop_last() =~= a);
            }
        }
        Ok(!self.parser.had_error)
    }

    /// The chunk and the first error recorded, once compiling is done.
    pub fn finish(self) -> (r: (Chunk, Option<Error>))
        ensures
            r.0 == self.chunk_view(),
            r.1 == self.error_view(),
    {
        (self.chunk, self.parser.report)
    }

    fn emit_byte(&mut self, byte: u8)
        requires
            old(self).inv(),
            old(self).parser.previous is Some,
        ensures
            final(self).inv(),
            final(self).base == old(self).base,
            final(self).lits == old(self).lits,
            final(self).parser == old(self).parser,
            extends(final(self).chunk.lines_view(), old(self).chunk.lines_view()),
            forall|i: int|
                old(self).chunk.lines_view().len() <= i < final(self).chunk.lines_view().len()
                    ==> #[trigger] final(self).chunk.lines_view()[i] == old(self).parser.previous.unwrap().line,
            final(self).code() == old(self).code().push(byte),
            final(self).chunk.constants_view() == old(self).chunk.constants_view(),
    {
        let line = self.parser.line();
        self.chunk.write(byte, line);
        assert(lines_positive(self.chunk.lines_view()));
    }

    fn emit_bytes(&mut self, byte1: u8, byte2: u8)
        requires
            old(self).inv(),
            old(self).parser.previous is Some,
        ensures
            final(self).inv(),
            final(self).base == old(self).base,
            final(self).lits == old(self).lits,
            final(self).parser == old(self).parser,
            extends(final(self).chunk.lines_view(), old(self).chunk.lines_view()),
            forall|i: int|
                old(self).chunk.lines_view().len() <= i < final(self).chunk.lines_view().len()
                    ==> #[trigger] final(self).chunk.lines_view()[i] == old(self).parser.previous.unwrap().line,
            final(self).code() == old(self).code() + seq![byte1, byte2],
            final(self).chunk.constants_view() == old(self).chunk.constants_view(),
    {
        self.emit_byte(byte1);
        self.emit_byte(byte2);
        assert(self.code() =~= old(self).code() + seq![byte1, byte2]);
    }

    fn emit_return(&mut self)
        requires
            old(self).inv(),
            old(self).parser.previous is Some,
        ensures
            final(self).inv(),
            final(self).base == old(self).base,
            final(self).lits == old(self).lits,
            final(self).parser == old(self).parser,
            extends(final(self).chunk.lines_view(), old(self).chunk.lines_view()),
            forall|i: int|
                old(self).chunk.lines_view().len() <= i < final(self).chunk.lines_view().len()
                    ==> #[trigger] final(self).chunk.lines_view()[i] == old(self).parser.previous.unwrap().line,
            final(self).code() == old(self).code().push(op_byte(OpCode::OpReturn)),
            final(self).chunk.constants_view() == old(self).chunk.constants_view(),
    {
        self.emit_byte(OpCode::OpReturn.to_byte())
    }

    fn end(&mut self)
        requires
            old(self).inv(),
            old(self).parser.previous is Some,
        ensures
            final(self).inv(),
            final(self).base == old(self).base,
            final(self).lits == old(self).lits,
            final(self).parser == old(self).parser,
            extends(final(self).chunk.lines_view(), old(self).chunk.lines_view()),
            forall|i: int|
                old(self).chunk.lines_view().len() <= i < final(self).chunk.lines_view().len()
                    ==> #[trigger] final(self).chunk.lines_view()[i] == old(self).parser.previous.unwrap().line,
            final(self).code() == old(self).code().push(op_byte(OpCode::OpReturn)),
            final(self).chunk.constants_view() == old(self).chunk.constants_view(),
    {
        self.emit_return()
    }

    /// Adds `value` to the pool and writes the instruction that pushes it,
    /// unless the pool is full, which is recorded as an error.
    fn emit_constant(&mut self, value: Value) -> (r: Result<(), Error>)
        requires
            old(self).inv(),
            old(self).fresh_literal(),
            old(self).parser.prev_span@.0 < old(self).parser.prev_span@.1,
            old(self).parser.current is Some,
            old(self).parser.previous is Some,
        ensures
            final(self).follows(old(self)),
            final(self).parser == old(self).parser,
            r matches Err(e) ==> aborts_compile(e),
            r is Err <==> old(self).n_constants() >= MAX_CONSTANTS,
            r is Err ==> old(self).pool_can_fill(),
            r is Ok ==> final(self).lits@ == old(self).lits@.push(old(self).parser.prev_span@),
            r is Err ==> final(self).lits@ == old(self).lits@,
            r is Ok ==> final(self).chunk.constants_view() == old(self).chunk.constants_view().push(value@),
            r is Ok ==> final(self).emitted(old(self)) == constant_instruction(
                old(self).n_constants(),
            ) && final(self).n_constants() == old(self).n_constants() + 1,
    {
        if self.chunk.constants().len() >= MAX_CONSTANTS {
            let line = self.parser.line();
            return Err(Error::CompileError { line, site: Site::End, msg: POOL_FULL });
        }
        let line = self.parser.line();
        self.chunk.write_constant(value, line);
        self.lits = Ghost(self.lits@.push(self.parser.prev_span@));
        assert(lines_positive(self.chunk.lines_view())) by {
            assert forall|i: int| 0 <= i < self.chunk.lines_view().len() implies #[trigger]
                self.chunk.lines_view()[i] >= 1 by {
                if i >= old(self).chunk.lines_view().len() {
                    assert(self.chunk.lines_view()[i] == line);
                } else {
                    assert(self.chunk.lines_view()[i] == old(self).chunk.lines_view()[i]);
                }
            }
        }
        assert(self.emitted(old(self)) =~= constant_instruction(old(self).n_constants()));
        Ok(())
    }
}

/// Constants added in two steps are those of their literals when those of
/// each step are.
proof fn lemma_constants_chain<'a, P: Fn(&Vec<u8>) -> u64>(
    a: &Compiler<'a>,
    b: &Compiler<'a>,
    c: &Compiler<'a>,
    parse: &P,
)
    requires
        b.constants_since(a, parse),
        c.constants_since(b, parse),
        b.follows(a),
        c.follows(b),
    ensures
        c.constants_since(a, parse),
{
    assert forall|k: int| a.n_constants() <= k < c.n_constants() implies #[trigger] constant_of(
        c.parser.src(),
        c.lits@[k],
        c.chunk.constants_view()[k],
        parse,
    ) by {
        if k < b.n_constants() {
            assert(c.lits@[k] == b.lits@[k]);
            assert(c.chunk.constants_view()[k] == b.chunk.constants_view()[k]);
            assert(constant_of(b.parser.src(), b.lits@[k], b.chunk.constants_view()[k], parse));
        }
    }
}

/// Parses an expression.
fn expression<P: Fn(&Vec<u8>) -> u64>(compiler: &mut Compiler, parse: &P) -> (r: Result<(), Error>)
    requires
        old(compiler).inv(),
        forall|s: &Vec<u8>| parse.requires((s,)),
        old(compiler).parser.current is Some,
    ensures
        final(compiler).follows(old(compiler)),
        final(compiler).constants_since(old(compiler), parse),
        final(compiler).parser.previous is Some,
        r matches Err(e) ==> aborts_compile(e),
        r is Err ==> final(compiler).pool_can_fill(),
        r is Ok && !final(compiler).parser.had_error ==> expression_code(
            final(compiler).emitted(old(compiler)),
            final(compiler).n_constants(),
        ),
        !old(compiler).parser.had_error && r is Ok ==> parse_spec(old(compiler).parser.src(), old(compiler).parser.pos(), old(compiler).parser.cur(), old(compiler).parser.start(), Precedence::Assignment, old(compiler).n_constants()) == final(compiler).outcome(old(compiler)),
        !old(compiler).parser.had_error && r is Ok && parse_result(old(compiler).parser.src(), old(compiler).parser.pos(), old(compiler).parser.cur(), old(compiler).parser.start(), Precedence::Assignment, old(compiler).n_constants()) is Err ==> reported(final(compiler).parser.report, old(compiler).parser.src(), fault_of(parse_result(old(compiler).parser.src(), old(compiler).parser.pos(), old(compiler).parser.cur(), old(compiler).parser.start(), Precedence::Assignment, old(compiler).n_constants()))),
        !old(compiler).parser.had_error && fits(parse_spec(old(compiler).parser.src(), old(compiler).parser.pos(), old(compiler).parser.cur(), old(compiler).parser.start(), Precedence::Assignment, old(compiler).n_constants())) ==> r is Ok,
    decreases old(compiler).parser.remaining(), old(compiler).parser.pending(), 1int,
{
    parse_precedence(compiler, Precedence::Assignment, parse)
}

/// Parses an expression whose operators bind at least as tightly as
/// `precedence`.
#[verifier::rlimit(60)]
fn parse_precedence<P: Fn(&Vec<u8>) -> u64>(compiler: &mut Compiler, precedence: Precedence, parse: &P) -> (r:
    Result<(), Error>)
    requires
        old(compiler).inv(),
        forall|s: &Vec<u8>| parse.requires((s,)),
        old(compiler).parser.current is Some,
    ensures
        final(compiler).follows(old(compiler)),
        final(compiler).constants_since(old(compiler), parse),
        final(compiler).parser.previous is Some,
        r matches Err(e) ==> aborts_compile(e),
        r is Err ==> final(compiler).pool_can_fill(),
        r is Ok && !final(compiler).parser.had_error ==> expression_code(
            final(compiler).emitted(old(compiler)),
            final(compiler).n_constants(),
        ),
        !old(compiler).parser.had_error && r is Ok ==> parse_spec(old(compiler).parser.src(), old(compiler).parser.pos(), old(compiler).parser.cur(), old(compiler).parser.start(), precedence, old(compiler).n_constants()) == final(compiler).outcome(old(compiler)),
        !old(compiler).parser.had_error && r is Ok && parse_result(old(compiler).parser.src(), old(compiler).parser.pos(), old(compiler).parser.cur(), old(compiler).parser.start(), precedence, old(compiler).n_constants()) is Err ==> reported(final(compiler).parser.report, old(compiler).parser.src(), fault_of(parse_result(old(compiler).parser.src(), old(compiler).parser.pos(), old(compiler).parser.cur(), old(compiler).parser.start(), precedence, old(compiler).n_constants()))),
        !old(compiler).parser.had_error && fits(parse_spec(old(compiler).parser.src(), old(compiler).parser.pos(), old(compiler).parser.cur(), old(compiler).parser.start(), precedence, old(compiler).n_constants())) ==> r is Ok,
    decreases old(compiler).parser.remaining(), old(compiler).parser.pending(), 0int,
{
    let ghost entry = *compiler;
    compiler.parser.advance();
    let ty = compiler.parser.previous_type();
    let prefix_rule = match get_rule(ty).prefix() {
        Ok(f) => f,
        Err(_) => {
            compiler.parser.error("Expect expression");
            return Ok(());
        },
    };
    let ghost advanced = *compiler;
    assert(advanced.emitted(&entry) =~= Seq::<u8>::empty());
    proof {
        let src = entry.parser.src();
        if !entry.parser.had_error && fits(
            parse_spec(src, entry.parser.pos(), entry.parser.cur(), entry.parser.start(), precedence, entry.n_constants()),
        ) {
            let a = advance_spec(src, entry.parser.pos());
            let b = prefix_spec(src, prefix_rule, entry.parser.cur(), entry.parser.start(), entry.parser.pos(), a.0, a.1, a.3, entry.n_constants()).unwrap();
            lemma_prefix_code(src, prefix_rule, entry.parser.cur(), entry.parser.start(), entry.parser.pos(), a.0, a.1, a.3, entry.n_constants());
            lemma_infix_code(src, b.0, b.1, b.5, precedence, b.3);
            assert(fits(prefix_spec(src, prefix_rule, entry.parser.cur(), entry.parser.start(), entry.parser.pos(), a.0, a.1, a.3, entry.n_constants())));
        }
    }
    match prefix_rule {
        ParseFn::Grouping => grouping(compiler, parse)?,
        ParseFn::Unary => unary(compiler, parse)?,
        ParseFn::Number => number(compiler, parse)?,
        ParseFn::Str => string(compiler, parse)?,
        ParseFn::Literal => literal(compiler, parse)?,
        ParseFn::Binary => {
            compiler.parser.error("Expect expression");
            return Ok(());
        },
    }
    let ghost src = entry.parser.src();
    proof {
        let after_prefix = *compiler;
        lemma_constants_chain(&entry, &advanced, &after_prefix, parse);
        assert(compiler.emitted(&entry) =~= compiler.emitted(&advanced));
        if !entry.parser.had_error && !compiler.parser.had_error {
            assert(later(src, advanced.parser.pos(), advanced.parser.cur(), entry.parser.pos(), entry.parser.cur()));
            assert(later(src, compiler.parser.pos(), compiler.parser.cur(), entry.parser.pos(), entry.parser.cur()));
        }
    }
    let mut result: Result<(), Error> = Ok(());
    loop
        invariant_except_break
            result is Ok,
            !entry.parser.had_error && !compiler.parser.had_error ==> parse_result(src, entry.parser.pos(), entry.parser.cur(), entry.parser.start(), precedence, entry.n_constants()) == continued(
                compiler.emitted(&entry),
                compiler.lits@.subrange(entry.n_constants(), compiler.n_constants()),
                infix_loop_result(
                    src,
                    compiler.parser.pos(),
                    compiler.parser.cur(),
                    compiler.parser.start(),
                    precedence,
                    compiler.n_constants(),
                ),
            ),
            !entry.parser.had_error && compiler.parser.had_error ==> parse_result(src, entry.parser.pos(), entry.parser.cur(), entry.parser.start(), precedence, entry.n_constants()) is Err && reported(
                compiler.parser.report,
                src,
                fault_of(parse_result(src, entry.parser.pos(), entry.parser.cur(), entry.parser.start(), precedence, entry.n_constants())),
            ),
            !compiler.parser.had_error ==> expression_code(
                compiler.emitted(&entry),
                compiler.n_constants(),
            ),
            !entry.parser.had_error ==> parse_spec(
                src,
                entry.parser.pos(),
                entry.parser.cur(),
                entry.parser.start(),
                precedence,
                entry.n_constants(),
            ) == if compiler.parser.had_error {
                None
            } else {
                match infix_loop_spec(
                    src,
                    compiler.parser.pos(),
                    compiler.parser.cur(),
                    compiler.parser.start(),
                    precedence,
                    compiler.n_constants(),
                ) {
                    Some(l) => Some((
                        l.0,
                        l.1,
                        compiler.emitted(&entry) + l.2,
                        l.3,
                        compiler.lits@.subrange(entry.n_constants(), compiler.n_constants()) + l.4,
                        l.5,
                    )),
                    None => None,
                }
            },
        invariant
            src == entry.parser.src(),
            forall|s: &Vec<u8>| parse.requires((s,)),
            compiler.constants_since(&entry, parse),
            entry == *old(compiler),
            compiler.follows(&entry),
            compiler.parser.previous is Some,
            compiler.parser.before(&entry.parser),
        ensures
            compiler.follows(&entry),
            compiler.constants_since(&entry, parse),
            !entry.parser.had_error && result is Ok && parse_result(src, entry.parser.pos(), entry.parser.cur(), entry.parser.start(), precedence, entry.n_constants()) is Err ==> reported(
                compiler.parser.report,
                src,
                fault_of(parse_result(src, entry.parser.pos(), entry.parser.cur(), entry.parser.start(), precedence, entry.n_constants())),
            ),
            compiler.parser.previous is Some,
            result matches Err(e) ==> aborts_compile(e),
            result is Err ==> compiler.pool_can_fill(),
            !entry.parser.had_error && fits(
                parse_spec(src, entry.parser.pos(), entry.parser.cur(), entry.parser.start(), precedence, entry.n_constants()),
            ) ==> result is Ok,
            !entry.parser.had_error && result is Ok ==> parse_spec(
                src,
                entry.parser.pos(),
                entry.parser.cur(),
                entry.parser.start(),
                precedence,
                entry.n_constants(),
            ) == compiler.outcome(&entry),
            result is Ok && !compiler.parser.had_error ==> expression_code(
                compiler.emitted(&entry),
                compiler.n_constants(),
            ),
        decreases compiler.parser.remaining(), compiler.parser.pending(),
    {
        let binding = get_rule(compiler.parser.current_type()).precedence;
        if precedence.level() > binding.level() {
            break ;
        }
        let ghost before_op = *compiler;
        compiler.parser.advance();
        let op_ty = compiler.parser.previous_type();
        match get_rule(op_ty).infix() {
            Ok(ParseFn::Binary) => {},
            _ => {
                compiler.parser.error("Expect expression");
                break ;
            },
        }
        let ghost operator = *compiler;
        proof {
            if !entry.parser.had_error && !compiler.parser.had_error && fits(
                parse_spec(src, entry.parser.pos(), entry.parser.cur(), entry.parser.start(), precedence, entry.n_constants()),
            ) {
                let a = advance_spec(src, before_op.parser.pos());
                let next = next_level(precedence_of(before_op.parser.cur()));
                let b = parse_spec(src, a.0, a.1, a.3, next, before_op.n_constants()).unwrap();
                lemma_parse_code(src, a.0, a.1, a.3, next, before_op.n_constants());
                lemma_infix_code(src, b.0, b.1, b.5, precedence, b.3);
                assert(fits(
                    binary_spec(
                        src,
                        op_ty,
                        operator.parser.pos(),
                        operator.parser.cur(),
                        operator.parser.start(),
                        operator.n_constants(),
                    ),
                ));
            }
        }
        match binary(compiler, parse) {
            Ok(()) => {},
            Err(e) => {
                result = Err(e);
                break ;
            },
        }
        proof {
            let now = *compiler;
            assert(now.emitted(&entry) =~= before_op.emitted(&entry) + now.emitted(&operator));
            assert(now.lits@.subrange(entry.n_constants(), now.n_constants()) =~= before_op.lits@.subrange(
                entry.n_constants(),
                before_op.n_constants(),
            ) + now.lits@.subrange(operator.n_constants(), now.n_constants()));
            assert(operator.constants_since(&entry, parse));
            if !entry.parser.had_error && !now.parser.had_error {
                let a = advance_spec(src, before_op.parser.pos());
                let nx = next_level(precedence_of(before_op.parser.cur()));
                let es = before_op.emitted(&entry);
                let ls = before_op.lits@.subrange(entry.n_constants(), before_op.n_constants());
                match parse_result(src, a.0, a.1, a.3, nx, before_op.n_constants()) {
                    Ok(b) => {
                        assert(now.emitted(&operator) == b.2 + binary_code(before_op.parser.cur()));
                        match infix_loop_result(src, b.0, b.1, b.5, precedence, b.3) {
                            Ok(l) => {
                                assert(es + (b.2 + binary_code(before_op.parser.cur()) + l.2) =~= es + (
                                b.2 + binary_code(before_op.parser.cur())) + l.2);
                                assert(ls + (b.4 + l.4) =~= ls + b.4 + l.4);
                            },
                            Err(_) => {},
                        }
                    },
                    Err(_) => {},
                }
            }
            lemma_constants_chain(&entry, &operator, &now, parse);
            if !before_op.parser.had_error && !operator.parser.had_error {
                assert(later(src, operator.parser.pos(), operator.parser.cur(), before_op.parser.pos(), before_op.parser.cur()));
                if !compiler.parser.had_error {
                    assert(later(src, compiler.parser.pos(), compiler.parser.cur(), before_op.parser.pos(), before_op.parser.cur()));
                }
            }
            if !compiler.parser.had_error {
                let a = before_op.emitted(&entry);
                let b = compiler.emitted(&operator);
                assert(operator.code() == before_op.code());
                assert(compiler.emitted(&entry) =~= a + b);
                lemma_then_operator(a, b, before_op.n_constants(), compiler.n_constants());
            }
        }
    }
    result
}

/// Parses a parenthesised expression, after its `(`.
fn grouping<P: Fn(&Vec<u8>) -> u64>(compiler: &mut Compiler, parse: &P) -> (r: Result<(), Error>)
    requires
        old(compiler).inv(),
        forall|s: &Vec<u8>| parse.requires((s,)),
        old(compiler).parser.current is Some,
        old(compiler).parser.previous is Some,
    ensures
        final(compiler).follows(old(compiler)),
        final(compiler).constants_since(old(compiler), parse),
        final(compiler).parser.previous is Some,
        r matches Err(e) ==> aborts_compile(e),
        r is Err ==> final(compiler).pool_can_fill(),
        r is Ok && !final(compiler).parser.had_error ==> expression_code(
            final(compiler).emitted(old(compiler)),
            final(compiler).n_constants(),
        ),
        !old(compiler).parser.had_error && r is Ok ==> prefix_spec(old(compiler).parser.src(), ParseFn::Grouping, old(compiler).parser.previous.unwrap().ty, old(compiler).parser.prev_span@.0, old(compiler).parser.prev_span@.1, old(compiler).parser.pos(), old(compiler).parser.cur(), old(compiler).parser.start(), old(compiler).n_constants()) == final(compiler).outcome(old(compiler)),
        !old(compiler).parser.had_error && r is Ok && prefix_result(old(compiler).parser.src(), ParseFn::Grouping, old(compiler).parser.previous.unwrap().ty, old(compiler).parser.prev_span@.0, old(compiler).parser.prev_span@.1, old(compiler).parser.pos(), old(compiler).parser.cur(), old(compiler).parser.start(), old(compiler).n_constants()) is Err ==> reported(final(compiler).parser.report, old(compiler).parser.src(), fault_of(prefix_result(old(compiler).parser.src(), ParseFn::Grouping, old(compiler).parser.previous.unwrap().ty, old(compiler).parser.prev_span@.0, old(compiler).parser.prev_span@.1, old(compiler).parser.pos(), old(compiler).parser.cur(), old(compiler).parser.start(), old(compiler).n_constants()))),
        !old(compiler).parser.had_error && fits(prefix_spec(old(compiler).parser.src(), ParseFn::Grouping, old(compiler).parser.previous.unwrap().ty, old(compiler).parser.prev_span@.0, old(compiler).parser.prev_span@.1, old(compiler).parser.pos(), old(compiler).parser.cur(), old(compiler).parser.start(), old(compiler).n_constants())) ==> r is Ok,
    decreases old(compiler).parser.remaining(), old(compiler).parser.pending(), 2int,
{
    expression(compiler, parse)?;
    let ghost inner = *compiler;
    compiler.parser.consume(TokenType::RightParen, "Expect ')' after expression");
    assert(compiler.emitted(old(compiler)) =~= inner.emitted(old(compiler)));
    Ok(())
}

/// Parses a unary operator's operand, after the operator, and writes the
/// operator.
fn unary<P: Fn(&Vec<u8>) -> u64>(compiler: &mut Compiler, parse: &P) -> (r: Result<(), Error>)
    requires
        old(compiler).inv(),
        forall|s: &Vec<u8>| parse.requires((s,)),
        old(compiler).parser.current is Some,
        old(compiler).parser.previous matches Some(t) && (t.ty == TokenType::Minus || t.ty
            == TokenType::Bang),
    ensures
        final(compiler).follows(old(compiler)),
        final(compiler).constants_since(old(compiler), parse),
        final(compiler).parser.previous is Some,
        r matches Err(e) ==> aborts_compile(e),
        r is Err ==> final(compiler).pool_can_fill(),
        r is Ok && !final(compiler).parser.had_error ==> expression_code(
            final(compiler).emitted(old(compiler)),
            final(compiler).n_constants(),
        ),
        !old(compiler).parser.had_error && r is Ok ==> prefix_spec(old(compiler).parser.src(), ParseFn::Unary, old(compiler).parser.previous.unwrap().ty, old(compiler).parser.prev_span@.0, old(compiler).parser.prev_span@.1, old(compiler).parser.pos(), old(compiler).parser.cur(), old(compiler).parser.start(), old(compiler).n_constants()) == final(compiler).outcome(old(compiler)),
        !old(compiler).parser.had_error && r is Ok && prefix_result(old(compiler).parser.src(), ParseFn::Unary, old(compiler).parser.previous.unwrap().ty, old(compiler).parser.prev_span@.0, old(compiler).parser.prev_span@.1, old(compiler).parser.pos(), old(compiler).parser.cur(), old(compiler).parser.start(), old(compiler).n_constants()) is Err ==> reported(final(compiler).parser.report, old(compiler).parser.src(), fault_of(prefix_result(old(compiler).parser.src(), ParseFn::Unary, old(compiler).parser.previous.unwrap().ty, old(compiler).parser.prev_span@.0, old(compiler).parser.prev_span@.1, old(compiler).parser.pos(), old(compiler).parser.cur(), old(compiler).parser.start(), old(compiler).n_constants()))),
        !old(compiler).parser.had_error && fits(prefix_spec(old(compiler).parser.src(), ParseFn::Unary, old(compiler).parser.previous.unwrap().ty, old(compiler).parser.prev_span@.0, old(compiler).parser.prev_span@.1, old(compiler).parser.pos(), old(compiler).parser.cur(), old(compiler).parser.start(), old(compiler).n_constants())) ==> r is Ok,
    decreases old(compiler).parser.remaining(), old(compiler).parser.pending(), 2int,
{
    let operator_type = compiler.parser.previous_type();
    parse_precedence(compiler, Precedence::Unary, parse)?;
    let ghost operand = *compiler;
    let code = if operator_type == TokenType::Minus {
        OpCode::OpNegate
    } else {
        OpCode::OpNot
    };
    compiler.emit_byte(code.to_byte());
    proof {
        if !compiler.parser.had_error {
            let a = operand.emitted(old(compiler));
            assert(compiler.emitted(old(compiler)) =~= a + seq![op_byte(code)]);
            lemma_then_unary(a, code, operand.n_constants(), compiler.n_constants());
        }
    }
    Ok(())
}

/// Parses the right operand of a binary operator, after the operator, and
/// writes the operator.
fn binary<P: Fn(&Vec<u8>) -> u64>(compiler: &mut Compiler, parse: &P) -> (r: Result<(), Error>)
    requires
        old(compiler).inv(),
        forall|s: &Vec<u8>| parse.requires((s,)),
        old(compiler).parser.current is Some,
        old(compiler).parser.previous matches Some(t) && infix_of(t.ty) == Some(ParseFn::Binary),
    ensures
        final(compiler).follows(old(compiler)),
        final(compiler).constants_since(old(compiler), parse),
        final(compiler).parser.previous is Some,
        r matches Err(e) ==> aborts_compile(e),
        r is Err ==> final(compiler).pool_can_fill(),
        r is Ok && !final(compiler).parser.had_error ==> operator_code(
            final(compiler).emitted(old(compiler)),
            final(compiler).n_constants(),
        ),
        !old(compiler).parser.had_error && r is Ok ==> binary_spec(old(compiler).parser.src(), old(compiler).parser.previous.unwrap().ty, old(compiler).parser.pos(), old(compiler).parser.cur(), old(compiler).parser.start(), old(compiler).n_constants()) == final(compiler).outcome(old(compiler)),
        !old(compiler).parser.had_error && r is Ok && parse_result(old(compiler).parser.src(), old(compiler).parser.pos(), old(compiler).parser.cur(), old(compiler).parser.start(), next_level(precedence_of(old(compiler).parser.previous.unwrap().ty)), old(compiler).n_constants()) is Err ==> reported(final(compiler).parser.report, old(compiler).parser.src(), fault_of(parse_result(old(compiler).parser.src(), old(compiler).parser.pos(), old(compiler).parser.cur(), old(compiler).parser.start(), next_level(precedence_of(old(compiler).parser.previous.unwrap().ty)), old(compiler).n_constants()))),
        !old(compiler).parser.had_error && fits(binary_spec(old(compiler).parser.src(), old(compiler).parser.previous.unwrap().ty, old(compiler).parser.pos(), old(compiler).parser.cur(), old(compiler).parser.start(), old(compiler).n_constants())) ==> r is Ok,
    decreases old(compiler).parser.remaining(), old(compiler).parser.pending(), 2int,
{
    let operator_type = compiler.parser.previous_type();
    let rule = get_rule(operator_type);
    parse_precedence(compiler, rule.precedence.next(), parse)?;
    let ghost operand = *compiler;
    match operator_type {
        TokenType::Plus => compiler.emit_byte(OpCode::OpAdd.to_byte()),
        TokenType::Minus => compiler.emit_byte(OpCode::OpSubtract.to_byte()),
        TokenType::Star => compiler.emit_byte(OpCode::OpMultiply.to_byte()),
        TokenType::Slash => compiler.emit_byte(OpCode::OpDivide.to_byte()),
        TokenType::BangEqual => compiler.emit_bytes(
            OpCode::OpEqual.to_byte(),
            OpCode::OpNot.to_byte(),
        ),
        TokenType::EqualEqual => compiler.emit_byte(OpCode::OpEqual.to_byte()),
        TokenType::Greater => compiler.emit_byte(OpCode::OpGreater.to_byte()),
        TokenType::GreaterEqual => compiler.emit_bytes(
            OpCode::OpLess.to_byte(),
            OpCode::OpNot.to_byte(),
        ),
        TokenType::Less => compiler.emit_byte(OpCode::OpLess.to_byte()),
        _ => compiler.emit_bytes(OpCode::OpGreater.to_byte(), OpCode::OpNot.to_byte()),
    }
    proof {
        if !compiler.parser.had_error {
            let a = operand.emitted(old(compiler));
            let b = binary_code(operator_type);
            assert(compiler.code() =~= operand.code() + b);
            assert(compiler.emitted(old(compiler)) =~= a + b);
            lemma_binary_code(operator_type, compiler.n_constants());
            lemma_operator(a, b, operand.n_constants(), compiler.n_constants());
        }
    }
    Ok(())
}

/// Writes the constant of a number literal.
fn number<P: Fn(&Vec<u8>) -> u64>(compiler: &mut Compiler, parse: &P) -> (r: Result<(), Error>)
    requires
        old(compiler).inv(),
        forall|s: &Vec<u8>| parse.requires((s,)),
        old(compiler).parser.current is Some,
        old(compiler).parser.previous matches Some(t) && t.ty == TokenType::Number,
        old(compiler).fresh_literal(),
    ensures
        final(compiler).follows(old(compiler)),
        final(compiler).constants_since(old(compiler), parse),
        final(compiler).parser.previous is Some,
        r matches Err(e) ==> aborts_compile(e),
        r is Err ==> final(compiler).pool_can_fill(),
        r is Ok && !final(compiler).parser.had_error ==> expression_code(
            final(compiler).emitted(old(compiler)),
            final(compiler).n_constants(),
        ),
        !old(compiler).parser.had_error && r is Ok ==> prefix_spec(old(compiler).parser.src(), ParseFn::Number, old(compiler).parser.previous.unwrap().ty, old(compiler).parser.prev_span@.0, old(compiler).parser.prev_span@.1, old(compiler).parser.pos(), old(compiler).parser.cur(), old(compiler).parser.start(), old(compiler).n_constants()) == final(compiler).outcome(old(compiler)),
        !old(compiler).parser.had_error && r is Ok && prefix_result(old(compiler).parser.src(), ParseFn::Number, old(compiler).parser.previous.unwrap().ty, old(compiler).parser.prev_span@.0, old(compiler).parser.prev_span@.1, old(compiler).parser.pos(), old(compiler).parser.cur(), old(compiler).parser.start(), old(compiler).n_constants()) is Err ==> reported(final(compiler).parser.report, old(compiler).parser.src(), fault_of(prefix_result(old(compiler).parser.src(), ParseFn::Number, old(compiler).parser.previous.unwrap().ty, old(compiler).parser.prev_span@.0, old(compiler).parser.prev_span@.1, old(compiler).parser.pos(), old(compiler).parser.cur(), old(compiler).parser.start(), old(compiler).n_constants()))),
        !old(compiler).parser.had_error && fits(prefix_spec(old(compiler).parser.src(), ParseFn::Number, old(compiler).parser.previous.unwrap().ty, old(compiler).parser.prev_span@.0, old(compiler).parser.prev_span@.1, old(compiler).parser.pos(), old(compiler).parser.cur(), old(compiler).parser.start(), old(compiler).n_constants())) ==> r is Ok,
{
    let ghost prev = compiler.parser.previous.unwrap();
    let bits = match &compiler.parser.previous {
        Some(t) => parse(&t.lexeme),
        None => 0,
    };
    compiler.emit_constant(Value::Number(bits))?;
    proof {
        let src = compiler.parser.src();
        let span = old(compiler).parser.prev_span@;
        assert(prev.lexeme@[0] == src[span.0]);
        assert(parse.ensures((&prev.lexeme,), bits));
        assert(prev.lexeme@.len() > 0 && prev.lexeme@[0] != QUOTE);
        assert(src[span.0] != QUOTE);
        let l = prev.lexeme;
        assert(l@ == src.subrange(span.0, span.1) && parse.ensures((&l,), bits));
        assert(exists|l: Vec<u8>|
            l@ == src.subrange(span.0, span.1) && #[trigger] parse.ensures((&l,), bits));
        assert(!(0 <= span.0 < src.len() && src[span.0] == QUOTE));
        assert(number_bits(ValueModel::Number(bits)) == bits);
        assert(constant_of(src, span, ValueModel::Number(bits), parse));
        assert(compiler.lits@[old(compiler).n_constants()] == span);
        if !compiler.parser.had_error {
            lemma_constant_instruction(old(compiler).n_constants(), 0, compiler.n_constants());
        }
    }
    Ok(())
}

/// The bytes of a string literal between its quotes.
fn unquote(lexeme: &Vec<u8>) -> (r: Vec<u8>)
    requires
        string_lexeme(lexeme@),
    ensures
        r@ == lexeme@.subrange(1, lexeme@.len() - 1),
{
    let mut out: Vec<u8> = Vec::new();
    let mut i: usize = 1;
    let end = lexeme.len() - 1;
    while i < end
        invariant
            end == lexeme@.len() - 1,
            1 <= i <= end,
            out@ == lexeme@.subrange(1, i as int),
        decreases end - i,
    {
        out.push(lexeme[i]);
        assert(lexeme@.subrange(1, i + 1) =~= lexeme@.subrange(1, i as int).push(lexeme@[i as int]));
        i = i + 1;
    }
    out
}

/// Writes the constant of a string literal.
fn string<P: Fn(&Vec<u8>) -> u64>(compiler: &mut Compiler, parse: &P) -> (r: Result<(), Error>)
    requires
        old(compiler).inv(),
        forall|s: &Vec<u8>| parse.requires((s,)),
        old(compiler).parser.current is Some,
        old(compiler).parser.previous matches Some(t) && t.ty == TokenType::Str,
        old(compiler).fresh_literal(),
    ensures
        final(compiler).follows(old(compiler)),
        final(compiler).constants_since(old(compiler), parse),
        final(compiler).parser.previous is Some,
        r matches Err(e) ==> aborts_compile(e),
        r is Err ==> final(compiler).pool_can_fill(),
        r is Ok && !final(compiler).parser.had_error ==> expression_code(
            final(compiler).emitted(old(compiler)),
            final(compiler).n_constants(),
        ),
        !old(compiler).parser.had_error && r is Ok ==> prefix_spec(old(compiler).parser.src(), ParseFn::Str, old(compiler).parser.previous.unwrap().ty, old(compiler).parser.prev_span@.0, old(compiler).parser.prev_span@.1, old(compiler).parser.pos(), old(compiler).parser.cur(), old(compiler).parser.start(), old(compiler).n_constants()) == final(compiler).outcome(old(compiler)),
        !old(compiler).parser.had_error && r is Ok && prefix_result(old(compiler).parser.src(), ParseFn::Str, old(compiler).parser.previous.unwrap().ty, old(compiler).parser.prev_span@.0, old(compiler).parser.prev_span@.1, old(compiler).parser.pos(), old(compiler).parser.cur(), old(compiler).parser.start(), old(compiler).n_constants()) is Err ==> reported(final(compiler).parser.report, old(compiler).parser.src(), fault_of(prefix_result(old(compiler).parser.src(), ParseFn::Str, old(compiler).parser.previous.unwrap().ty, old(compiler).parser.prev_span@.0, old(compiler).parser.prev_span@.1, old(compiler).parser.pos(), old(compiler).parser.cur(), old(compiler).parser.start(), old(compiler).n_constants()))),
        !old(compiler).parser.had_error && fits(prefix_spec(old(compiler).parser.src(), ParseFn::Str, old(compiler).parser.previous.unwrap().ty, old(compiler).parser.prev_span@.0, old(compiler).parser.prev_span@.1, old(compiler).parser.pos(), old(compiler).parser.cur(), old(compiler).parser.start(), old(compiler).n_constants())) ==> r is Ok,
{
    let ghost prev = compiler.parser.previous.unwrap();
    let bytes = match &compiler.parser.previous {
        Some(t) => unquote(&t.lexeme),
        None => Vec::new(),
    };
    let ghost content = bytes@;
    compiler.emit_constant(Value::Str(bytes))?;
    proof {
        let src = compiler.parser.src();
        let span = old(compiler).parser.prev_span@;
        assert(prev.lexeme@[0] == src[span.0]);
        assert(content =~= src.subrange(span.0 + 1, span.1 - 1));
        assert(constant_of(src, span, ValueModel::Str(content), parse));
        assert(compiler.lits@[old(compiler).n_constants()] == span);
        if !compiler.parser.had_error {
            lemma_constant_instruction(old(compiler).n_constants(), 0, compiler.n_constants());
        }
    }
    Ok(())
}

/// Writes the instruction of `true`, `false` or `nil`.
fn literal<P: Fn(&Vec<u8>) -> u64>(compiler: &mut Compiler, parse: &P) -> (r: Result<(), Error>)
    requires
        old(compiler).inv(),
        forall|s: &Vec<u8>| parse.requires((s,)),
        old(compiler).parser.current is Some,
        old(compiler).parser.previous matches Some(t) && (t.ty == TokenType::True || t.ty
            == TokenType::False || t.ty == TokenType::Nil),
    ensures
        final(compiler).follows(old(compiler)),
        final(compiler).constants_since(old(compiler), parse),
        final(compiler).parser.previous is Some,
        r is Ok,
        !final(compiler).parser.had_error ==> expression_code(
            final(compiler).emitted(old(compiler)),
            final(compiler).n_constants(),
        ),
        !old(compiler).parser.had_error && r is Ok ==> prefix_spec(old(compiler).parser.src(), ParseFn::Literal, old(compiler).parser.previous.unwrap().ty, old(compiler).parser.prev_span@.0, old(compiler).parser.prev_span@.1, old(compiler).parser.pos(), old(compiler).parser.cur(), old(compiler).parser.start(), old(compiler).n_constants()) == final(compiler).outcome(old(compiler)),
        !old(compiler).parser.had_error && r is Ok && prefix_result(old(compiler).parser.src(), ParseFn::Literal, old(compiler).parser.previous.unwrap().ty, old(compiler).parser.prev_span@.0, old(compiler).parser.prev_span@.1, old(compiler).parser.pos(), old(compiler).parser.cur(), old(compiler).parser.start(), old(compiler).n_constants()) is Err ==> reported(final(compiler).parser.report, old(compiler).parser.src(), fault_of(prefix_result(old(compiler).parser.src(), ParseFn::Literal, old(compiler).parser.previous.unwrap().ty, old(compiler).parser.prev_span@.0, old(compiler).parser.prev_span@.1, old(compiler).parser.pos(), old(compiler).parser.cur(), old(compiler).parser.start(), old(compiler).n_constants()))),
        !old(compiler).parser.had_error && fits(prefix_spec(old(compiler).parser.src(), ParseFn::Literal, old(compiler).parser.previous.unwrap().ty, old(compiler).parser.prev_span@.0, old(compiler).parser.prev_span@.1, old(compiler).parser.pos(), old(compiler).parser.cur(), old(compiler).parser.start(), old(compiler).n_constants())) ==> r is Ok,
{
    let code = match compiler.parser.previous_type() {
        TokenType::False => OpCode::OpFalse,
        TokenType::True => OpCode::OpTrue,
        _ => OpCode::OpNil,
    };
    compiler.emit_byte(code.to_byte());
    proof {
        lemma_simple_instruction(code, 0, compiler.n_constants());
        assert(compiler.emitted(old(compiler)) =~= seq![op_byte(code)]);
    }
    Ok(())
}

} // verus!
