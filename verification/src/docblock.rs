//! A cursor over a pre-lexed docblock token stream. The cursor itself
//! carries no interning logic; it hands its callers the symbol table it was
//! given so that they can register or resolve identifier-like text.

use crate::symbol::Symbol;
use crate::symbol::SymbolTable;
use vstd::prelude::*;

verus! {

/// The kind of a docblock token.
#[derive(Clone, Copy, PartialEq, Eq, Structural, Debug)]
pub enum TokenKind {
    HorizontalWhitespace,
    Identifier,
    Text,
    Eof,
}

/// One pre-lexed docblock token: its kind and the interned handle of its
/// text.
#[derive(Clone, Copy, PartialEq, Eq, Structural, Debug)]
pub struct Token {
    pub kind: TokenKind,
    pub symbol: Symbol,
}

/// A cursor over a token stream, carrying the symbol table for its callers.
pub struct State<'a> {
    tokens: &'a [Token],
    pub symbol_table: &'a mut SymbolTable,
    position: usize,
}

impl<'a> State<'a> {
    /// The token stream under the cursor.
    pub closed spec fn spec_tokens(self) -> Seq<Token> {
        self.tokens@
    }

    /// The cursor's current position in the stream.
    pub closed spec fn spec_position(self) -> int {
        self.position as int
    }

    /// The symbol table the cursor carries for its callers.
    pub closed spec fn spec_table(self) -> SymbolTable {
        *self.symbol_table
    }

    /// Builds a cursor at the start of `tokens`.
    pub fn new(tokens: &'a [Token], symbol_table: &'a mut SymbolTable) -> (r: Self)
        ensures
            r.spec_tokens() == tokens@,
            r.spec_position() == 0,
            r.spec_table() == *old(symbol_table),
    {
        Self { tokens, symbol_table, position: 0 }
    }

    /// The token under the cursor.
    pub fn current(&self) -> (r: &'a Token)
        requires
            self.spec_position() < self.spec_tokens().len(),
        ensures
            *r == self.spec_tokens()[self.spec_position()],
    {
        &self.tokens[self.position]
    }

    /// The token just before the cursor.
    pub fn previous(&self) -> (r: &'a Token)
        requires
            1 <= self.spec_position() <= self.spec_tokens().len(),
        ensures
            *r == self.spec_tokens()[self.spec_position() - 1],
    {
        &self.tokens[self.position - 1]
    }

    /// Whether the cursor has moved past the last token.
    pub fn is_eof(&self) -> (r: bool)
        ensures
            r == (self.spec_position() >= self.spec_tokens().len()),
    {
        self.position >= self.tokens.len()
    }

    /// Advances the cursor by one token.
    pub fn next(&mut self)
        requires
            old(self).spec_position() < usize::MAX,
        ensures
            final(self).spec_tokens() == old(self).spec_tokens(),
            final(self).spec_position() == old(self).spec_position() + 1,
            final(self).spec_table() == old(self).spec_table(),
    {
        self.position += 1;
    }

    /// Advances the cursor to the first token at or after the current
    /// position that is not horizontal whitespace.
    pub fn skip_horizontal_whitespace(&mut self)
        requires
            exists|i: int|
                old(self).spec_position() <= i < old(self).spec_tokens().len()
                    && old(self).spec_tokens()[i].kind != TokenKind::HorizontalWhitespace,
        ensures
            final(self).spec_tokens() == old(self).spec_tokens(),
            final(self).spec_table() == old(self).spec_table(),
            old(self).spec_position() <= final(self).spec_position()
                < final(self).spec_tokens().len(),
            final(self).spec_tokens()[final(self).spec_position()].kind
                != TokenKind::HorizontalWhitespace,
            forall|j: int|
                old(self).spec_position() <= j < final(self).spec_position()
                    ==> final(self).spec_tokens()[j].kind == TokenKind::HorizontalWhitespace,
    {
        while self.current().kind == TokenKind::HorizontalWhitespace
            invariant
                old(self).spec_position() <= self.spec_position()
                    < self.spec_tokens().len(),
                self.spec_tokens() == old(self).spec_tokens(),
                self.spec_table() == old(self).spec_table(),
                exists|i: int|
                    self.spec_position() <= i < self.spec_tokens().len()
                        && self.spec_tokens()[i].kind != TokenKind::HorizontalWhitespace,
                forall|j: int|
                    old(self).spec_position() <= j < self.spec_position()
                        ==> self.spec_tokens()[j].kind == TokenKind::HorizontalWhitespace,
            decreases self.spec_tokens().len() - self.spec_position(),
        {
            let stream_len = self.tokens.len();
            proof {
                assert(self.spec_position() < stream_len);
            }
            self.next();
        }
    }
}

} // verus!
