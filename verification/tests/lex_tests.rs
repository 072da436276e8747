use minilang::lex::{Lex, LexValue, Token, TokenKind};

#[test]
fn lex_num_test() {
    let l = Lex::new("1234 \n\n 1234");
    assert_eq!(
        l.cur,
        Some(Token { pos: 0, kind: TokenKind::Int, value: LexValue::Int(1234) })
    );
    assert_eq!(l.line, 1);
}

#[test]
fn lex_ident_test() {
    let mut l = Lex::new(" \n\n _he123llo_ 1234");
    assert_eq!(
        l.cur,
        Some(Token {
            pos: 4,
            kind: TokenKind::Ident,
            value: LexValue::Ident("_he123llo_".into())
        })
    );
    assert_eq!(l.line, 3);
    l.next();
    assert_eq!(
        l.cur,
        Some(Token { pos: 15, kind: TokenKind::Int, value: LexValue::Int(1234) })
    );
}

#[test]
fn lex_symbols_test() {
    let mut l = Lex::new("1 + 2 - 3");
    assert_eq!(
        l.cur,
        Some(Token { pos: 0, kind: TokenKind::Int, value: LexValue::Int(1) })
    );
    l.next();
    assert_eq!(
        l.cur,
        Some(Token { pos: 2, kind: TokenKind::Plus, value: LexValue::Empty })
    );
    l.next();
    assert_eq!(
        l.cur,
        Some(Token { pos: 4, kind: TokenKind::Int, value: LexValue::Int(2) })
    );
    l.next();
    assert_eq!(
        l.cur,
        Some(Token { pos: 6, kind: TokenKind::Hyphen, value: LexValue::Empty })
    );
    l.next();
    assert_eq!(
        l.cur,
        Some(Token { pos: 8, kind: TokenKind::Int, value: LexValue::Int(3) })
    );
}

#[test]
fn lex_expect_test() {
    let mut l = Lex::new(" \n\n id 1234 if ");
    assert_eq!(l.expect(TokenKind::Ident), true);
    assert_eq!(l.line, 3);
    assert_eq!(l.expect(TokenKind::Int), true);
    assert_eq!(l.expect(TokenKind::Int), false);
    l.next();
    assert_eq!(l.expect(TokenKind::Ident), false);
}

#[test]
fn lex_keyword_test() {
    let mut l = Lex::new(" \n\n ident let 1234");
    assert_eq!(
        l.cur,
        Some(Token {
            pos: 4,
            kind: TokenKind::Ident,
            value: LexValue::Ident("ident".into())
        })
    );
    assert_eq!(l.line, 3);
    l.next();
    assert_eq!(
        l.cur,
        Some(Token { pos: 10, kind: TokenKind::Let, value: LexValue::Empty })
    );
}

#[test]
fn lex_all_keywords() {
    let mut l = Lex::new("fn return let");
    assert_eq!(
        l.cur,
        Some(Token { pos: 0, kind: TokenKind::Fn, value: LexValue::Empty })
    );
    l.next();
    assert_eq!(
        l.cur,
        Some(Token { pos: 3, kind: TokenKind::Return, value: LexValue::Empty })
    );
    l.next();
    assert_eq!(
        l.cur,
        Some(Token { pos: 10, kind: TokenKind::Let, value: LexValue::Empty })
    );
    l.next();
    assert_eq!(l.cur, None);
}

#[test]
fn lex_largest_literal() {
    let l = Lex::new("9223372036854775807");
    assert_eq!(
        l.cur,
        Some(Token {
            pos: 0,
            kind: TokenKind::Int,
            value: LexValue::Int(9223372036854775807)
        })
    );
}

#[test]
fn lex_oversized_literal_skipped() {
    // one past i64::MAX does not fit; the literal is skipped and the next
    // token is scanned instead
    let l = Lex::new("9223372036854775808 42");
    assert_eq!(
        l.cur,
        Some(Token { pos: 20, kind: TokenKind::Int, value: LexValue::Int(42) })
    );
}

#[test]
fn lex_maybe_test() {
    let mut l = Lex::new("( )");
    assert_eq!(l.maybe(TokenKind::RightParen), false);
    assert_eq!(l.maybe(TokenKind::LeftParen), true);
    assert_eq!(l.maybe(TokenKind::RightParen), true);
    assert_eq!(l.cur, None);
}

#[test]
fn lex_punctuation_kinds() {
    let mut l = Lex::new("^ ; = { }");
    assert_eq!(
        l.cur,
        Some(Token { pos: 0, kind: TokenKind::Circumflex, value: LexValue::Empty })
    );
    l.next();
    assert_eq!(
        l.cur,
        Some(Token { pos: 2, kind: TokenKind::SemiColon, value: LexValue::Empty })
    );
    l.next();
    assert_eq!(
        l.cur,
        Some(Token { pos: 4, kind: TokenKind::Eq, value: LexValue::Empty })
    );
    l.next();
    assert_eq!(
        l.cur,
        Some(Token { pos: 6, kind: TokenKind::LeftBrace, value: LexValue::Empty })
    );
    l.next();
    assert_eq!(
        l.cur,
        Some(Token { pos: 8, kind: TokenKind::RightBrace, value: LexValue::Empty })
    );
}
