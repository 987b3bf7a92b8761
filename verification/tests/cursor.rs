use pxp_symbol::docblock::State;
use pxp_symbol::docblock::Token;
use pxp_symbol::docblock::TokenKind;
use pxp_symbol::symbol::SymbolTable;

fn token(kind: TokenKind, symbol: usize) -> Token {
    Token { kind, symbol }
}

#[test]
fn a_fresh_cursor_starts_at_the_first_token() {
    let mut table = SymbolTable::new();
    let text = table.intern(b"summary");
    let tokens = vec![token(TokenKind::Text, text), token(TokenKind::Eof, 0)];

    let state = State::new(&tokens, &mut table);

    assert!(!state.is_eof());
    assert_eq!(state.current().kind, TokenKind::Text);
    assert_eq!(state.current().symbol, text);
}

#[test]
fn next_advances_and_previous_looks_back() {
    let mut table = SymbolTable::new();
    let name = table.intern(b"param");
    let tokens = vec![
        token(TokenKind::Identifier, name),
        token(TokenKind::Eof, 0),
    ];

    let mut state = State::new(&tokens, &mut table);
    state.next();

    assert_eq!(state.previous().kind, TokenKind::Identifier);
    assert_eq!(state.current().kind, TokenKind::Eof);
    assert!(!state.is_eof());

    state.next();
    assert!(state.is_eof());
}

#[test]
fn skip_horizontal_whitespace_stops_at_the_first_other_token() {
    let mut table = SymbolTable::new();
    let space = table.intern(b" ");
    let name = table.intern(b"var");
    let tokens = vec![
        token(TokenKind::HorizontalWhitespace, space),
        token(TokenKind::HorizontalWhitespace, space),
        token(TokenKind::Identifier, name),
        token(TokenKind::Eof, 0),
    ];

    let mut state = State::new(&tokens, &mut table);
    state.skip_horizontal_whitespace();

    assert_eq!(state.current().kind, TokenKind::Identifier);
    assert_eq!(state.current().symbol, name);
}

#[test]
fn skip_horizontal_whitespace_leaves_other_tokens_alone() {
    let mut table = SymbolTable::new();
    let name = table.intern(b"var");
    let tokens = vec![token(TokenKind::Identifier, name), token(TokenKind::Eof, 0)];

    let mut state = State::new(&tokens, &mut table);
    state.skip_horizontal_whitespace();

    assert_eq!(state.current().kind, TokenKind::Identifier);
}

#[test]
fn the_cursor_hands_its_symbol_table_back_to_callers() {
    let mut table = SymbolTable::new();
    let tokens = vec![token(TokenKind::Eof, 0)];

    let state = State::new(&tokens, &mut table);
    let registered = state.symbol_table.intern(b"@var");

    assert_eq!(state.symbol_table.resolve(registered), Some(b"@var".as_slice()));
}
