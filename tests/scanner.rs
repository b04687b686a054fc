use rlox::error::Error;
use rlox::scanner::{Scanner, Token};
use rlox::token_type::TokenType;

fn tokens(source: &str) -> Vec<Result<Token, Error>> {
    let mut scanner = Scanner::new(source.as_bytes());
    let mut out = Vec::new();
    loop {
        let t = scanner.scan_token();
        let end = matches!(&t, Ok(tok) if tok.ty == TokenType::Eof);
        out.push(t);
        if end {
            return out;
        }
    }
}

fn types(source: &str) -> Vec<TokenType> {
    tokens(source)
        .into_iter()
        .map(|t| t.map(|tok| tok.ty).unwrap())
        .collect()
}

#[test]
fn trailing_dot_is_not_part_of_a_number() {
    let toks = tokens("1.");
    let first = toks[0].as_ref().unwrap();
    assert_eq!(first.ty, TokenType::Number);
    assert_eq!(first.lexeme, b"1".to_vec());
    assert_eq!(toks[1].as_ref().unwrap().ty, TokenType::Dot);
    assert_eq!(toks[2].as_ref().unwrap().ty, TokenType::Eof);
}

#[test]
fn number_with_fraction() {
    let toks = tokens("12.50");
    let first = toks[0].as_ref().unwrap();
    assert_eq!(first.ty, TokenType::Number);
    assert_eq!(first.lexeme, b"12.50".to_vec());
    assert_eq!(types("1.5.2"), vec![TokenType::Number, TokenType::Dot, TokenType::Number, TokenType::Eof]);
}

#[test]
fn operators_take_the_longest_match() {
    assert_eq!(
        types("! != = == < <= > >= ( ) { } , . - + ; / * ? :"),
        vec![
            TokenType::Bang,
            TokenType::BangEqual,
            TokenType::Equal,
            TokenType::EqualEqual,
            TokenType::Less,
            TokenType::LessEqual,
            TokenType::Greater,
            TokenType::GreaterEqual,
            TokenType::LeftParen,
            TokenType::RightParen,
            TokenType::LeftBrace,
            TokenType::RightBrace,
            TokenType::Comma,
            TokenType::Dot,
            TokenType::Minus,
            TokenType::Plus,
            TokenType::Semicolon,
            TokenType::Slash,
            TokenType::Star,
            TokenType::QuestionMark,
            TokenType::Colon,
            TokenType::Eof,
        ]
    );
}

#[test]
fn keywords_and_identifiers() {
    assert_eq!(
        types("and class else false for fun if nil or print return super this true var while andy x1"),
        vec![
            TokenType::And,
            TokenType::Class,
            TokenType::Else,
            TokenType::False,
            TokenType::For,
            TokenType::Fun,
            TokenType::If,
            TokenType::Nil,
            TokenType::Or,
            TokenType::Print,
            TokenType::Return,
            TokenType::Super,
            TokenType::This,
            TokenType::True,
            TokenType::Var,
            TokenType::While,
            TokenType::Identifier,
            TokenType::Identifier,
            TokenType::Eof,
        ]
    );
}

#[test]
fn strings_keep_their_quotes_and_count_lines() {
    let toks = tokens("\"a\nb\" x");
    let s = toks[0].as_ref().unwrap();
    assert_eq!(s.ty, TokenType::Str);
    assert_eq!(s.lexeme, b"\"a\nb\"".to_vec());
    assert_eq!(s.line, 2);
    assert_eq!(toks[1].as_ref().unwrap().line, 2);
}

#[test]
fn comments_and_blanks_are_skipped() {
    let toks = tokens("  // note\n\t1 // more\r\n+");
    assert_eq!(toks[0].as_ref().unwrap().ty, TokenType::Number);
    assert_eq!(toks[0].as_ref().unwrap().line, 2);
    assert_eq!(toks[1].as_ref().unwrap().ty, TokenType::Plus);
    assert_eq!(toks[1].as_ref().unwrap().line, 3);
    assert_eq!(toks[2].as_ref().unwrap().ty, TokenType::Eof);
}

#[test]
fn unterminated_string_is_an_error() {
    let mut scanner = Scanner::new(b"\"abc");
    match scanner.scan_token() {
        Err(Error::ScanError { line, msg }) => {
            assert_eq!(line, 1);
            assert_eq!(msg, "Unterminated string");
        }
        other => panic!("unexpected {:?}", other),
    }
}

#[test]
fn unknown_byte_is_an_error() {
    let mut scanner = Scanner::new(b"@1");
    match scanner.scan_token() {
        Err(Error::ScanError { msg, .. }) => assert_eq!(msg, "unknown token"),
        other => panic!("unexpected {:?}", other),
    }
    assert_eq!(scanner.lexeme(), b"@".to_vec());
    assert_eq!(scanner.scan_token().unwrap().ty, TokenType::Number);
}

#[test]
fn empty_source_gives_eof() {
    assert_eq!(types(""), vec![TokenType::Eof]);
    assert_eq!(types("   \n "), vec![TokenType::Eof]);
}
