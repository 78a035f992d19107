use noisy_simulator::{
    assert_no_duplicates, CompletionItem, CompletionList, CursorAwareLexer, LexError, Span, Token, TokenKind,
};

fn list(labels: &[&str]) -> CompletionList {
    CompletionList { items: labels.iter().map(|l| CompletionItem { label: l.to_string() }).collect() }
}

#[test]
fn distinct_labels_pass() {
    assert_eq!(assert_no_duplicates(list(&["Foo", "Bar", "Baz"])), Ok(()));
    assert_eq!(assert_no_duplicates(list(&[])), Ok(()));
}

#[test]
fn repeated_labels_are_reported() {
    assert_eq!(assert_no_duplicates(list(&["Foo", "Bar", "Foo", "Foo"])), Err(vec!["Foo".to_string(), "Foo".to_string()]));
}

fn token(kind: TokenKind, lo: u32, hi: u32) -> Result<Token, LexError> {
    Ok(Token { kind, span: Span { lo, hi } })
}

#[test]
fn lexer_stops_at_cursor_in_whitespace() {
    let tokens = vec![token(TokenKind::Keyword, 0, 9), token(TokenKind::Ident, 10, 14)];
    let mut lexer = CursorAwareLexer::new(tokens, 10);
    assert_eq!(lexer.next(), Some(token(TokenKind::Keyword, 0, 9)));
    assert!(!lexer.at_cursor);
    assert_eq!(lexer.next(), None);
    assert!(lexer.at_cursor);
    assert_eq!(lexer.next(), None);
    assert!(!lexer.at_cursor);
}

#[test]
fn lexer_drops_word_under_cursor() {
    let tokens = vec![token(TokenKind::Other, 0, 1), token(TokenKind::Ident, 2, 6)];
    let mut lexer = CursorAwareLexer::new(tokens, 4);
    assert_eq!(lexer.next(), Some(token(TokenKind::Other, 0, 1)));
    assert_eq!(lexer.next(), None);
    assert!(lexer.at_cursor);
}

#[test]
fn lexer_keeps_symbol_ending_at_cursor() {
    let tokens = vec![token(TokenKind::Other, 0, 1), token(TokenKind::Other, 1, 3)];
    let mut lexer = CursorAwareLexer::new(tokens.clone(), 1);
    assert_eq!(lexer.next(), Some(token(TokenKind::Other, 0, 1)));
    assert!(!lexer.at_cursor);
    assert_eq!(lexer.next(), None);
    assert!(lexer.at_cursor);
    let mut inside = CursorAwareLexer::new(tokens, 2);
    assert_eq!(inside.next(), Some(token(TokenKind::Other, 0, 1)));
    assert_eq!(inside.next(), None);
    assert!(!inside.at_cursor);
}

#[test]
fn lexer_cursor_at_start_and_end() {
    let mut lexer = CursorAwareLexer::new(vec![token(TokenKind::Ident, 0, 3)], 0);
    assert_eq!(lexer.next(), None);
    assert!(lexer.at_cursor);
    let errors = vec![Err(LexError { span: Span { lo: 0, hi: 1 } })];
    let mut lexer = CursorAwareLexer::new(errors, 5);
    assert_eq!(lexer.next(), Some(Err(LexError { span: Span { lo: 0, hi: 1 } })));
    assert_eq!(lexer.next(), None);
    assert!(lexer.at_cursor);
}

#[test]
fn lexer_reports_cursor_through_accessor() {
    let mut lexer = CursorAwareLexer::new(vec![token(TokenKind::Ident, 0, 3)], 2);
    assert!(!lexer.at_cursor());
    assert_eq!(lexer.next(), None);
    assert!(lexer.at_cursor());
}
