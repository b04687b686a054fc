//! The scanner: turns source bytes into tokens, one at a time.
use crate::error::Error;
use crate::token_type::TokenType;
use vstd::prelude::*;

verus! {

pub const NEWLINE: u8 = 10;
pub const TAB: u8 = 9;
pub const CARRIAGE_RETURN: u8 = 13;
pub const SPACE: u8 = 32;
pub const BANG: u8 = 33;
pub const QUOTE: u8 = 34;
pub const LEFT_PAREN: u8 = 40;
pub const RIGHT_PAREN: u8 = 41;
pub const STAR: u8 = 42;
pub const PLUS: u8 = 43;
pub const COMMA: u8 = 44;
pub const MINUS: u8 = 45;
pub const DOT: u8 = 46;
pub const SLASH: u8 = 47;
pub const COLON: u8 = 58;
pub const SEMICOLON: u8 = 59;
pub const LESS: u8 = 60;
pub const EQUAL: u8 = 61;
pub const GREATER: u8 = 62;
pub const QUESTION_MARK: u8 = 63;
pub const LEFT_BRACE: u8 = 123;
pub const RIGHT_BRACE: u8 = 125;

pub open spec fn is_digit(b: u8) -> bool {
    48 <= b <= 57
}

/// An ASCII letter.
pub open spec fn is_alpha(b: u8) -> bool {
    (65 <= b <= 90) || (97 <= b <= 122)
}

pub open spec fn is_blank(b: u8) -> bool {
    b == SPACE || b == TAB || b == CARRIAGE_RETURN || b == NEWLINE
}

/// The number of line breaks in `s`.
pub open spec fn newlines(s: Seq<u8>) -> nat
    decreases s.len(),
{
    if s.len() == 0 {
        0
    } else {
        newlines(s.drop_last()) + if s.last() == NEWLINE {
            1nat
        } else {
            0nat
        }
    }
}

/// The token of a punctuation byte alone.
pub open spec fn one_char_type(c: u8) -> Option<TokenType> {
    if c == LEFT_PAREN {
        Some(TokenType::LeftParen)
    } else if c == RIGHT_PAREN {
        Some(TokenType::RightParen)
    } else if c == LEFT_BRACE {
        Some(TokenType::LeftBrace)
    } else if c == RIGHT_BRACE {
        Some(TokenType::RightBrace)
    } else if c == SEMICOLON {
        Some(TokenType::Semicolon)
    } else if c == COLON {
        Some(TokenType::Colon)
    } else if c == COMMA {
        Some(TokenType::Comma)
    } else if c == DOT {
        Some(TokenType::Dot)
    } else if c == MINUS {
        Some(TokenType::Minus)
    } else if c == PLUS {
        Some(TokenType::Plus)
    } else if c == SLASH {
        Some(TokenType::Slash)
    } else if c == QUESTION_MARK {
        Some(TokenType::QuestionMark)
    } else if c == STAR {
        Some(TokenType::Star)
    } else if c == BANG {
        Some(TokenType::Bang)
    } else if c == EQUAL {
        Some(TokenType::Equal)
    } else if c == LESS {
        Some(TokenType::Less)
    } else if c == GREATER {
        Some(TokenType::Greater)
    } else {
        None
    }
}

/// The token of a punctuation byte followed by `=`.
pub open spec fn with_equal_type(c: u8) -> Option<TokenType> {
    if c == BANG {
        Some(TokenType::BangEqual)
    } else if c == EQUAL {
        Some(TokenType::EqualEqual)
    } else if c == LESS {
        Some(TokenType::LessEqual)
    } else if c == GREATER {
        Some(TokenType::GreaterEqual)
    } else {
        None
    }
}

/// The type of a word: a keyword, or an identifier.
pub open spec fn keyword_type(lex: Seq<u8>) -> TokenType {
    if lex == seq![97u8, 110, 100] {
        // and
        TokenType::And
    } else if lex == seq![99u8, 108, 97, 115, 115] {
        // class
        TokenType::Class
    } else if lex == seq![101u8, 108, 115, 101] {
        // else
        TokenType::Else
    } else if lex == seq![102u8, 97, 108, 115, 101] {
        // false
        TokenType::False
    } else if lex == seq![102u8, 111, 114] {
        // for
        TokenType::For
    } else if lex == seq![102u8, 117, 110] {
        // fun
        TokenType::Fun
    } else if lex == seq![105u8, 102] {
        // if
        TokenType::If
    } else if lex == seq![110u8, 105, 108] {
        // nil
        TokenType::Nil
    } else if lex == seq![111u8, 114] {
        // or
        TokenType::Or
    } else if lex == seq![112u8, 114, 105, 110, 116] {
        // print
        TokenType::Print
    } else if lex == seq![114u8, 101, 116, 117, 114, 110] {
        // return
        TokenType::Return
    } else if lex == seq![115u8, 117, 112, 101, 114] {
        // super
        TokenType::Super
    } else if lex == seq![116u8, 104, 105, 115] {
        // this
        TokenType::This
    } else if lex == seq![116u8, 114, 117, 101] {
        // true
        TokenType::True
    } else if lex == seq![118u8, 97, 114] {
        // var
        TokenType::Var
    } else if lex == seq![119u8, 104, 105, 108, 101] {
        // while
        TokenType::While
    } else {
        TokenType::Identifier
    }
}

/// Where the blanks and `//` comments that start at `c` end; `in_comment`
/// when `c` is inside a comment.
pub open spec fn skip_from(src: Seq<u8>, c: int, in_comment: bool) -> int
    decreases src.len() - c,
{
    if c < 0 || c >= src.len() {
        c
    } else if in_comment {
        skip_from(src, c + 1, src[c] != NEWLINE)
    } else if is_blank(src[c]) {
        skip_from(src, c + 1, false)
    } else if src[c] == SLASH && c + 1 < src.len() && src[c + 1] == SLASH {
        skip_from(src, c + 2, true)
    } else {
        c
    }
}

/// The end of the run of digits that starts at `i`.
pub open spec fn digits_end(src: Seq<u8>, i: int) -> int
    decreases src.len() - i,
{
    if 0 <= i < src.len() && is_digit(src[i]) {
        digits_end(src, i + 1)
    } else {
        i
    }
}

/// The end of the run of letters and digits that starts at `i`.
pub open spec fn word_end(src: Seq<u8>, i: int) -> int
    decreases src.len() - i,
{
    if 0 <= i < src.len() && (is_alpha(src[i]) || is_digit(src[i])) {
        word_end(src, i + 1)
    } else {
        i
    }
}

/// The first quote at or after `i`, or the end of the input.
pub open spec fn quote_from(src: Seq<u8>, i: int) -> int
    decreases src.len() - i,
{
    if 0 <= i < src.len() && src[i] != QUOTE {
        quote_from(src, i + 1)
    } else {
        i
    }
}

/// The token that scanning from `c` reads: its type, or `None` for a
/// malformed token, with where it starts and ends.
pub open spec fn next_token(src: Seq<u8>, c: int) -> (Option<TokenType>, int, int) {
    let s = skip_from(src, c, false);
    if s >= src.len() {
        (Some(TokenType::Eof), s, s)
    } else {
        let b = src[s];
        if is_digit(b) {
            let e = digits_end(src, s + 1);
            if e + 1 < src.len() && src[e] == DOT && is_digit(src[e + 1]) {
                (Some(TokenType::Number), s, digits_end(src, e + 2))
            } else {
                (Some(TokenType::Number), s, e)
            }
        } else if is_alpha(b) {
            let e = word_end(src, s + 1);
            (Some(keyword_type(src.subrange(s, e))), s, e)
        } else if b == QUOTE {
            let q = quote_from(src, s + 1);
            if q < src.len() {
                (Some(TokenType::Str), s, q + 1)
            } else {
                (None, s, q)
            }
        } else if one_char_type(b) is Some {
            if with_equal_type(b) is Some && s + 1 < src.len() && src[s + 1] == EQUAL {
                (with_equal_type(b), s, s + 2)
            } else {
                (one_char_type(b), s, s + 1)
            }
        } else {
            (None, s, s + 1)
        }
    }
}

/// Digits, with at most one `.` that stands between two digits.
pub open spec fn number_lexeme(lex: Seq<u8>) -> bool {
    &&& lex.len() >= 1
    &&& is_digit(lex[0])
    &&& is_digit(lex.last())
    &&& forall|i: int| 0 <= i < lex.len() ==> is_digit(#[trigger] lex[i]) || lex[i] == DOT
    &&& forall|i: int, j: int|
        0 <= i < lex.len() && 0 <= j < lex.len() && #[trigger] lex[i] == DOT && #[trigger] lex[j]
            == DOT ==> i == j
}

/// A letter followed by letters and digits.
pub open spec fn identifier_lexeme(lex: Seq<u8>) -> bool {
    &&& lex.len() >= 1
    &&& is_alpha(lex[0])
    &&& forall|i: int| 0 <= i < lex.len() ==> is_alpha(#[trigger] lex[i]) || is_digit(lex[i])
}

/// Quotes around bytes that hold no quote.
pub open spec fn string_lexeme(lex: Seq<u8>) -> bool {
    &&& lex.len() >= 2
    &&& lex[0] == QUOTE
    &&& lex.last() == QUOTE
    &&& forall|i: int| 0 < i < lex.len() - 1 ==> #[trigger] lex[i] != QUOTE
}

/// `lex` is a lexeme of a token of type `ty`.
pub open spec fn lexeme_of_kind(ty: TokenType, lex: Seq<u8>) -> bool {
    if lex.len() == 0 {
        ty == TokenType::Eof
    } else if lex[0] == QUOTE {
        ty == TokenType::Str && string_lexeme(lex)
    } else if is_digit(lex[0]) {
        ty == TokenType::Number && number_lexeme(lex)
    } else if is_alpha(lex[0]) {
        identifier_lexeme(lex) && ty == keyword_type(lex)
    } else if lex.len() == 2 {
        lex[1] == EQUAL && with_equal_type(lex[0]) == Some(ty)
    } else {
        lex.len() == 1 && one_char_type(lex[0]) == Some(ty)
    }
}

/// The byte at `end` cannot extend the token that ends there.
pub open spec fn ends_token(lex: Seq<u8>, src: Seq<u8>, end: int) -> bool {
    if lex.len() == 0 || lex[0] == QUOTE {
        true
    } else if is_digit(lex[0]) {
        &&& (end == src.len() || !is_digit(src[end]))
        &&& (forall|i: int| 0 <= i < lex.len() ==> #[trigger] lex[i] != DOT) ==> !(end + 1
            < src.len() && src[end] == DOT && is_digit(src[end + 1]))
    } else if is_alpha(lex[0]) {
        end == src.len() || !(is_alpha(src[end]) || is_digit(src[end]))
    } else if lex.len() == 1 && with_equal_type(lex[0]) is Some {
        end == src.len() || src[end] != EQUAL
    } else {
        true
    }
}

/// Position `at` starts neither a blank nor a comment.
pub open spec fn at_token_start(src: Seq<u8>, at: int) -> bool {
    at == src.len() || (!is_blank(src[at]) && !(src[at] == SLASH && at + 1 < src.len() && src[at
        + 1] == SLASH))
}

/// `src[start..end]` is a malformed token: a byte that starts no token, or a
/// string that the input ends inside.
pub open spec fn scan_failure(src: Seq<u8>, start: int, end: int) -> bool {
    ||| (end == start + 1 && !(src[start] == QUOTE || is_digit(src[start]) || is_alpha(src[start])
        || one_char_type(src[start]) is Some))
    ||| (src[start] == QUOTE && end == src.len() && forall|i: int|
        start < i < src.len() ==> #[trigger] src[i] != QUOTE)
}

proof fn lemma_newlines_step(s: Seq<u8>, i: int)
    requires
        0 <= i < s.len(),
    ensures
        newlines(s.subrange(0, i + 1)) == newlines(s.subrange(0, i)) + if s[i] == NEWLINE {
            1nat
        } else {
            0nat
        },
        newlines(s.subrange(0, i)) <= i,
    decreases i,
{
    assert(s.subrange(0, i + 1).drop_last() =~= s.subrange(0, i));
    if i > 0 {
        lemma_newlines_step(s, i - 1);
    }
}

/// A token: its type, its bytes in the source, and its line.
#[derive(Debug, PartialEq)]
pub struct Token {
    pub ty: TokenType,
    pub lexeme: Vec<u8>,
    pub line: u32,
}

pub struct Scanner<'a> {
    source: &'a [u8],
    start: usize,
    current: usize,
    line: u32,
}

impl<'a> Scanner<'a> {
    pub closed spec fn source_view(&self) -> Seq<u8> {
        self.source@
    }

    /// Where the last token began.
    pub closed spec fn start_view(&self) -> int {
        self.start as int
    }

    /// How far the input has been read.
    pub closed spec fn current_view(&self) -> int {
        self.current as int
    }

    pub closed spec fn line_view(&self) -> u32 {
        self.line
    }

    /// The line is one more than the line breaks read so far, and fits a `u32`.
    pub open spec fn wf(&self) -> bool {
        &&& self.source_view().len() < u32::MAX
        &&& 0 <= self.start_view() <= self.current_view() <= self.source_view().len()
        &&& self.line_view() == 1 + newlines(self.source_view().subrange(0, self.current_view()))
    }

    pub fn new(source: &'a [u8]) -> (r: Self)
        requires
            source@.len() < u32::MAX,
        ensures
            r.wf(),
            r.source_view() == source@,
            r.start_view() == 0,
            r.current_view() == 0,
            r.line_view() == 1,
    {
        let r = Scanner { source, start: 0, current: 0, line: 1 };
        assert(source@.subrange(0, 0).len() == 0);
        r
    }

    /// Reads the next token, after blanks and `//` comments.
    pub fn scan_token(&mut self) -> (r: Result<Token, Error>)
        requires
            old(self).wf(),
        ensures
            final(self).wf(),
            final(self).source_view() == old(self).source_view(),
            old(self).current_view() <= final(self).start_view(),
            at_token_start(final(self).source_view(), final(self).start_view()),
            next_token(old(self).source_view(), old(self).current_view()) == (
                match r {
                    Ok(t) => Some(t.ty),
                    Err(_) => None::<TokenType>,
                },
                final(self).start_view(),
                final(self).current_view(),
            ),
            match r {
                Ok(t) => {
                    &&& t.lexeme@ == final(self).source_view().subrange(
                        final(self).start_view(),
                        final(self).current_view(),
                    )
                    &&& t.line == final(self).line_view()
                    &&& lexeme_of_kind(t.ty, t.lexeme@)
                    &&& ends_token(t.lexeme@, final(self).source_view(), final(self).current_view())
                    &&& (t.ty == TokenType::Eof <==> final(self).start_view() == final(self).source_view().len())
                },
                Err(e) => {
                    &&& e is ScanError
                    &&& e matches Error::ScanError { line, msg }
                    &&& line == final(self).line_view()
                    &&& msg == if old(self).source_view()[final(self).start_view()] == QUOTE {
                        "Unterminated string"
                    } else {
                        "unknown token"
                    }
                    &&& final(self).start_view() < final(self).current_view()
                    &&& scan_failure(
                        final(self).source_view(),
                        final(self).start_view(),
                        final(self).current_view(),
                    )
                },
            },
    {
        self.skip_whitespace();
        self.start = self.current;
        let c = match self.advance() {
            Some(c) => c,
            None => {
                return Ok(self.make_token(TokenType::Eof));
            },
        };
        if is_digit_byte(c) {
            return Ok(self.number());
        }
        if is_alpha_byte(c) {
            return Ok(self.identifier());
        }
        if c == QUOTE {
            return self.string();
        }
        let one = match one_char(c) {
            Some(ty) => ty,
            None => {
                return Err(Error::ScanError { line: self.line, msg: "unknown token" });
            },
        };
        let ty = match with_equal(c) {
            Some(two) => {
                if self.match_and_advance(EQUAL) {
                    two
                } else {
                    one
                }
            },
            None => one,
        };
        Ok(self.make_token(ty))
    }

    /// The bytes of the token read last.
    pub fn lexeme(&self) -> (r: Vec<u8>)
        requires
            self.wf(),
        ensures
            r@ == self.source_view().subrange(self.start_view(), self.current_view()),
    {
        self.make_token(TokenType::Eof).lexeme
    }

    fn is_at_end(&self) -> (r: bool)
        requires
            self.current <= self.source@.len(),
        ensures
            r == (self.current == self.source@.len()),
    {
        self.current == self.source.len()
    }

    fn make_token(&self, ty: TokenType) -> (t: Token)
        requires
            self.start <= self.current <= self.source@.len(),
        ensures
            t.ty == ty,
            t.lexeme@ == self.source@.subrange(self.start as int, self.current as int),
            t.line == self.line,
    {
        let mut lexeme: Vec<u8> = Vec::new();
        let mut i = self.start;
        while i < self.current
            invariant
                self.start <= i <= self.current <= self.source@.len(),
                lexeme@ == self.source@.subrange(self.start as int, i as int),
            decreases self.current - i,
        {
            lexeme.push(self.source[i]);
            assert(self.source@.subrange(self.start as int, i + 1) =~= self.source@.subrange(
                self.start as int,
                i as int,
            ).push(self.source@[i as int]));
            i = i + 1;
        }
        Token { ty, lexeme, line: self.line }
    }

    /// Reads one byte, counting line breaks.
    fn advance(&mut self) -> (r: Option<u8>)
        requires
            old(self).wf(),
        ensures
            final(self).wf(),
            final(self).source == old(self).source,
            final(self).start == old(self).start,
            old(self).current < old(self).source@.len() ==> r == Some(old(self).source@[old(self).current as int]) && final(self).current == old(self).current + 1,
            old(self).current == old(self).source@.len() ==> r is None && final(self).current
                == old(self).current,
    {
        if self.current < self.source.len() {
            let c = self.source[self.current];
            proof {
                lemma_newlines_step(self.source@, self.current as int);
            }
            if c == NEWLINE {
                self.line = self.line + 1;
            }
            self.current = self.current + 1;
            Some(c)
        } else {
            None
        }
    }

    /// Reads the next byte if it is `expected`.
    fn match_and_advance(&mut self, expected: u8) -> (r: bool)
        requires
            old(self).wf(),
        ensures
            final(self).wf(),
            final(self).source == old(self).source,
            final(self).start == old(self).start,
            r == (old(self).current < old(self).source@.len() && old(self).source@[old(self).current as int] == expected),
            final(self).current == old(self).current + if r {
                1int
            } else {
                0int
            },
    {
        if self.is_at_end() {
            return false;
        }
        if self.peek() != Some(expected) {
            return false;
        }
        self.advance();
        true
    }

    fn peek(&self) -> (r: Option<u8>)
        ensures
            r == if self.current < self.source@.len() {
                Some(self.source@[self.current as int])
            } else {
                None::<u8>
            },
    {
        if self.current < self.source.len() {
            Some(self.source[self.current])
        } else {
            None
        }
    }

    fn peek_next(&self) -> (r: Option<u8>)
        ensures
            r == if self.current + 1 < self.source@.len() {
                Some(self.source@[self.current + 1])
            } else {
                None::<u8>
            },
    {
        if self.current < self.source.len() && self.current + 1 < self.source.len() {
            Some(self.source[self.current + 1])
        } else {
            None
        }
    }

    /// Passes over blanks and `//` comments.
    fn skip_whitespace(&mut self)
        requires
            old(self).wf(),
        ensures
            final(self).wf(),
            final(self).source == old(self).source,
            final(self).start == old(self).start,
            old(self).current <= final(self).current,
            at_token_start(final(self).source@, final(self).current as int),
            final(self).current == skip_from(old(self).source@, old(self).current as int, false),
    {
        loop
            invariant
                self.wf(),
                self.source == old(self).source,
                self.start == old(self).start,
                old(self).current <= self.current,
                skip_from(self.source@, self.current as int, false) == skip_from(
                    old(self).source@,
                    old(self).current as int,
                    false,
                ),
            decreases self.source@.len() - self.current,
        {
            let c = match self.peek() {
                Some(c) => c,
                None => {
                    return;
                },
            };
            if c == SPACE || c == CARRIAGE_RETURN || c == TAB || c == NEWLINE {
                self.advance();
            } else if c == SLASH {
                if self.peek_next() == Some(SLASH) {
                    let ghost before = self.current;
                    self.advance();
                    self.advance();
                    while self.current < self.source.len() && self.source[self.current] != NEWLINE
                        invariant
                            self.wf(),
                            self.source == old(self).source,
                            self.start == old(self).start,
                            old(self).current <= before < self.current,
                            skip_from(self.source@, self.current as int, true) == skip_from(
                                old(self).source@,
                                old(self).current as int,
                                false,
                            ),
                        decreases self.source@.len() - self.current,
                    {
                        self.advance();
                    }
                } else {
                    return;
                }
            } else {
                return;
            }
        }
    }

    /// The rest of a string literal, after its opening quote.
    fn string(&mut self) -> (r: Result<Token, Error>)
        requires
            old(self).wf(),
            old(self).current == old(self).start + 1,
            old(self).source@[old(self).start as int] == QUOTE,
        ensures
            final(self).wf(),
            final(self).source == old(self).source,
            final(self).start == old(self).start,
            match r {
                Ok(t) => {
                    &&& t.ty == TokenType::Str
                    &&& t.lexeme@ == final(self).source@.subrange(
                        final(self).start as int,
                        final(self).current as int,
                    )
                    &&& string_lexeme(t.lexeme@)
                    &&& t.line == final(self).line
                    &&& final(self).current == quote_from(old(self).source@, old(self).current as int) + 1
                },
                Err(e) => {
                    &&& e == (Error::ScanError { line: final(self).line, msg: "Unterminated string" })
                    &&& final(self).current == quote_from(old(self).source@, old(self).current as int)
                    &&& final(self).current == final(self).source@.len()
                    &&& forall|i: int|
                        final(self).start < i < final(self).source@.len()
                            ==> #[trigger] final(self).source@[i] != QUOTE
                },
            },
    {
        while self.current < self.source.len() && self.source[self.current] != QUOTE
            invariant
                self.wf(),
                self.source == old(self).source,
                self.start == old(self).start,
                self.start < self.current,
                forall|i: int| self.start < i < self.current ==> #[trigger] self.source@[i] != QUOTE,
                quote_from(self.source@, self.current as int) == quote_from(
                    old(self).source@,
                    old(self).current as int,
                ),
            decreases self.source@.len() - self.current,
        {
            self.advance();
        }
        if self.is_at_end() {
            return Err(Error::ScanError { line: self.line, msg: "Unterminated string" });
        }
        self.advance();
        let t = self.make_token(TokenType::Str);
        assert(string_lexeme(t.lexeme@));
        Ok(t)
    }

    /// The rest of a number literal, after its first digit.
    fn number(&mut self) -> (t: Token)
        requires
            old(self).wf(),
            old(self).current == old(self).start + 1,
            is_digit(old(self).source@[old(self).start as int]),
        ensures
            final(self).wf(),
            final(self).source == old(self).source,
            final(self).start == old(self).start,
            t.ty == TokenType::Number,
            t.lexeme@ == final(self).source@.subrange(
                final(self).start as int,
                final(self).current as int,
            ),
            number_lexeme(t.lexeme@),
            ends_token(t.lexeme@, final(self).source@, final(self).current as int),
            t.line == final(self).line,
            ({
                let src = old(self).source@;
                let e = digits_end(src, old(self).current as int);
                final(self).current == if e + 1 < src.len() && src[e] == DOT && is_digit(src[e + 1]) {
                    digits_end(src, e + 2)
                } else {
                    e
                }
            }),
    {
        while self.current < self.source.len() && is_digit_byte(self.source[self.current])
            invariant
                self.wf(),
                self.source == old(self).source,
                self.start == old(self).start,
                self.start < self.current,
                forall|i: int| self.start <= i < self.current ==> is_digit(#[trigger] self.source@[i]),
                digits_end(self.source@, self.current as int) == digits_end(
                    old(self).source@,
                    old(self).current as int,
                ),
            decreases self.source@.len() - self.current,
        {
            self.advance();
        }
        let int_end = self.current;
        let mut has_fraction = false;
        if self.peek() == Some(DOT) {
            match self.peek_next() {
                Some(d) => {
                    if is_digit_byte(d) {
                        has_fraction = true;
                    }
                },
                None => {},
            }
        }
        if has_fraction {
            self.advance();
            self.advance();
            while self.current < self.source.len() && is_digit_byte(self.source[self.current])
                invariant
                    self.wf(),
                    self.source == old(self).source,
                    self.start == old(self).start,
                    self.start < int_end,
                    int_end + 2 <= self.current,
                    self.source@[int_end as int] == DOT,
                    digits_end(self.source@, self.current as int) == digits_end(
                        self.source@,
                        int_end + 2,
                    ),
                    forall|i: int|
                        self.start <= i < self.current && i != int_end ==> is_digit(
                            #[trigger] self.source@[i],
                        ),
                decreases self.source@.len() - self.current,
            {
                self.advance();
            }
        }
        let t = self.make_token(TokenType::Number);
        let ghost lex = t.lexeme@;
        let ghost s = self.start as int;
        assert(forall|i: int| 0 <= i < lex.len() ==> lex[i] == self.source@[s + i]);
        if has_fraction {
            assert(lex[int_end - s] == DOT);
            assert(forall|i: int| 0 <= i < lex.len() && #[trigger] lex[i] == DOT ==> i == int_end - s)
                by {
                assert(forall|i: int|
                    0 <= i < lex.len() && i != int_end - s ==> is_digit(#[trigger] lex[i]));
            }
        }
        t
    }

    /// The rest of an identifier or keyword, after its first letter.
    fn identifier(&mut self) -> (t: Token)
        requires
            old(self).wf(),
            old(self).current == old(self).start + 1,
            is_alpha(old(self).source@[old(self).start as int]),
        ensures
            final(self).wf(),
            final(self).source == old(self).source,
            final(self).start == old(self).start,
            t.lexeme@ == final(self).source@.subrange(
                final(self).start as int,
                final(self).current as int,
            ),
            identifier_lexeme(t.lexeme@),
            t.ty == keyword_type(t.lexeme@),
            final(self).current == word_end(old(self).source@, old(self).current as int),
            ends_token(t.lexeme@, final(self).source@, final(self).current as int),
            t.line == final(self).line,
    {
        while self.current < self.source.len() && (is_alpha_byte(self.source[self.current])
            || is_digit_byte(self.source[self.current]))
            invariant
                self.wf(),
                self.source == old(self).source,
                self.start == old(self).start,
                self.start < self.current,
                forall|i: int|
                    self.start <= i < self.current ==> is_alpha(#[trigger] self.source@[i])
                        || is_digit(self.source@[i]),
                word_end(self.source@, self.current as int) == word_end(
                    old(self).source@,
                    old(self).current as int,
                ),
            decreases self.source@.len() - self.current,
        {
            self.advance();
        }
        let ty = self.identifier_type();
        let t = self.make_token(ty);
        assert(forall|i: int|
            0 <= i < t.lexeme@.len() ==> t.lexeme@[i] == self.source@[self.start + i]);
        t
    }

    /// Whether the current lexeme is `word`.
    fn lexeme_is(&self, word: &[u8]) -> (r: bool)
        requires
            self.start <= self.current <= self.source@.len(),
        ensures
            r == (self.source@.subrange(self.start as int, self.current as int) == word@),
    {
        let ghost lex = self.source@.subrange(self.start as int, self.current as int);
        if self.current - self.start != word.len() {
            return false;
        }
        let mut i: usize = 0;
        while i < word.len()
            invariant
                lex == self.source@.subrange(self.start as int, self.current as int),
                self.start <= self.current <= self.source@.len(),
                self.current - self.start == word@.len(),
                i <= word@.len(),
                lex.subrange(0, i as int) == word@.subrange(0, i as int),
            decreases word@.len() - i,
        {
            if self.source[self.start + i] != word[i] {
                assert(lex[i as int] != word@[i as int]);
                return false;
            }
            assert(lex.subrange(0, i + 1) =~= lex.subrange(0, i as int).push(lex[i as int]));
            assert(word@.subrange(0, i + 1) =~= word@.subrange(0, i as int).push(word@[i as int]));
            i = i + 1;
        }
        assert(lex =~= lex.subrange(0, i as int));
        assert(word@ =~= word@.subrange(0, i as int));
        true
    }

    fn identifier_type(&self) -> (r: TokenType)
        requires
            self.start <= self.current <= self.source@.len(),
        ensures
            r == keyword_type(self.source@.subrange(self.start as int, self.current as int)),
    {
        let word: [u8; 3] = [97, 110, 100];
        if self.lexeme_is(&word) {
            return TokenType::And;
        }
        let word: [u8; 5] = [99, 108, 97, 115, 115];
        if self.lexeme_is(&word) {
            return TokenType::Class;
        }
        let word: [u8; 4] = [101, 108, 115, 101];
        if self.lexeme_is(&word) {
            return TokenType::Else;
        }
        let word: [u8; 5] = [102, 97, 108, 115, 101];
        if self.lexeme_is(&word) {
            return TokenType::False;
        }
        let word: [u8; 3] = [102, 111, 114];
        if self.lexeme_is(&word) {
            return TokenType::For;
        }
        let word: [u8; 3] = [102, 117, 110];
        if self.lexeme_is(&word) {
            return TokenType::Fun;
        }
        let word: [u8; 2] = [105, 102];
        if self.lexeme_is(&word) {
            return TokenType::If;
        }
        let word: [u8; 3] = [110, 105, 108];
        if self.lexeme_is(&word) {
            return TokenType::Nil;
        }
        let word: [u8; 2] = [111, 114];
        if self.lexeme_is(&word) {
            return TokenType::Or;
        }
        let word: [u8; 5] = [112, 114, 105, 110, 116];
        if self.lexeme_is(&word) {
            return TokenType::Print;
        }
        let word: [u8; 6] = [114, 101, 116, 117, 114, 110];
        if self.lexeme_is(&word) {
            return TokenType::Return;
        }
        let word: [u8; 5] = [115, 117, 112, 101, 114];
        if self.lexeme_is(&word) {
            return TokenType::Super;
        }
        let word: [u8; 4] = [116, 104, 105, 115];
        if self.lexeme_is(&word) {
            return TokenType::This;
        }
        let word: [u8; 4] = [116, 114, 117, 101];
        if self.lexeme_is(&word) {
            return TokenType::True;
        }
        let word: [u8; 3] = [118, 97, 114];
        if self.lexeme_is(&word) {
            return TokenType::Var;
        }
        let word: [u8; 5] = [119, 104, 105, 108, 101];
        if self.lexeme_is(&word) {
            return TokenType::While;
        }
        TokenType::Identifier
    }
}

fn is_digit_byte(b: u8) -> (r: bool)
    ensures
        r == is_digit(b),
{
    48 <= b && b <= 57
}

fn is_alpha_byte(b: u8) -> (r: bool)
    ensures
        r == is_alpha(b),
{
    (65 <= b && b <= 90) || (97 <= b && b <= 122)
}

fn one_char(c: u8) -> (r: Option<TokenType>)
    ensures
        r == one_char_type(c),
{
    if c == LEFT_PAREN {
        Some(TokenType::LeftParen)
    } else if c == RIGHT_PAREN {
        Some(TokenType::RightParen)
    } else if c == LEFT_BRACE {
        Some(TokenType::LeftBrace)
    } else if c == RIGHT_BRACE {
        Some(TokenType::RightBrace)
    } else if c == SEMICOLON {
        Some(TokenType::Semicolon)
    } else if c == COLON {
        Some(TokenType::Colon)
    } else if c == COMMA {
        Some(TokenType::Comma)
    } else if c == DOT {
        Some(TokenType::Dot)
    } else if c == MINUS {
        Some(TokenType::Minus)
    } else if c == PLUS {
        Some(TokenType::Plus)
    } else if c == SLASH {
        Some(TokenType::Slash)
    } else if c == QUESTION_MARK {
        Some(TokenType::QuestionMark)
    } else if c == STAR {
        Some(TokenType::Star)
    } else if c == BANG {
        Some(TokenType::Bang)
    } else if c == EQUAL {
        Some(TokenType::Equal)
    } else if c == LESS {
        Some(TokenType::Less)
    } else if c == GREATER {
        Some(TokenType::Greater)
    } else {
        None
    }
}

fn with_equal(c: u8) -> (r: Option<TokenType>)
    ensures
        r == with_equal_type(c),
{
    if c == BANG {
        Some(TokenType::BangEqual)
    } else if c == EQUAL {
        Some(TokenType::EqualEqual)
    } else if c == LESS {
        Some(TokenType::LessEqual)
    } else if c == GREATER {
        Some(TokenType::GreaterEqual)
    } else {
        None
    }
}

} // verus!
