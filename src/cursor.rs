//! A token stream that marks where an editor's cursor stands, for completion.
use vstd::prelude::*;

verus! {

/// A range `[lo, hi)` of byte offsets in the source.
#[derive(Clone, Copy, Debug, PartialEq, Eq)]
pub struct Span {
    pub lo: u32,
    pub hi: u32,
}

/// The kinds of token that the cursor logic tells apart.
#[derive(Clone, Copy, Debug, PartialEq, Eq)]
pub enum TokenKind {
    /// An identifier.
    Ident,
    /// A keyword.
    Keyword,
    /// The operator `and`.
    And,
    /// The operator `or`.
    Or,
    /// Any other token.
    Other,
}

/// A lexed token.
#[derive(Clone, Copy, Debug, PartialEq, Eq)]
pub struct Token {
    pub kind: TokenKind,
    pub span: Span,
}

/// A span the lexer could not read.
#[derive(Clone, Copy, Debug, PartialEq, Eq)]
pub struct LexError {
    pub span: Span,
}

/// Where the lexer stands with respect to the cursor.
#[derive(Clone, Copy, Debug, PartialEq, Eq)]
pub enum CursorState {
    /// Before the cursor: tokens are passed on.
    Normal,
    /// At the cursor: the next call reports it.
    Cursor,
    /// Past the cursor: nothing more is produced.
    End,
}

/// Ident, keyword, `and` and `or` are words: a cursor inside or at the end
/// of one completes the word itself.
pub open spec fn is_word(kind: TokenKind) -> bool {
    kind is Ident || kind is Keyword || kind is And || kind is Or
}

/// One step of the lexer: the next state, the next position in the token
/// stream, the item produced, and whether the cursor was reached.
pub open spec fn step(
    state: CursorState,
    tokens: Seq<Result<Token, LexError>>,
    position: nat,
    cursor_offset: u32,
) -> (CursorState, nat, Option<Result<Token, LexError>>, bool) {
    match state {
        CursorState::End => (CursorState::End, position, None, false),
        CursorState::Cursor => (CursorState::End, position, None, true),
        CursorState::Normal => {
            if position >= tokens.len() {
                (CursorState::End, position, None, true)
            } else {
                match tokens[position as int] {
                    Err(e) => (CursorState::Normal, position + 1, Some(Err(e)), false),
                    Ok(token) => {
                        if token.span.lo >= cursor_offset {
                            (CursorState::End, position + 1, None, true)
                        } else if token.span.hi >= cursor_offset {
                            if is_word(token.kind) {
                                (CursorState::End, position + 1, None, true)
                            } else if token.span.hi == cursor_offset {
                                (CursorState::Cursor, position + 1, Some(Ok(token)), false)
                            } else {
                                (CursorState::End, position + 1, None, false)
                            }
                        } else {
                            (CursorState::Normal, position + 1, Some(Ok(token)), false)
                        }
                    },
                }
            }
        },
    }
}

/// Passes on the tokens that lie before the cursor at `cursor_offset`, then
/// stops, recording in `at_cursor` whether the cursor was reached.
pub struct CursorAwareLexer {
    /// Whether the last call to `next` reached the cursor.
    pub at_cursor: bool,
    tokens: Vec<Result<Token, LexError>>,
    position: usize,
    cursor_offset: u32,
    state: CursorState,
}

impl CursorAwareLexer {
    /// Where the lexer stands.
    pub closed spec fn phase(&self) -> CursorState {
        self.state
    }

    /// The tokens, as lexed from the source.
    pub closed spec fn stream(&self) -> Seq<Result<Token, LexError>> {
        self.tokens@
    }

    /// How many tokens have been read.
    pub closed spec fn read(&self) -> nat {
        self.position as nat
    }

    /// Whether the last step reached the cursor.
    pub closed spec fn reached(&self) -> bool {
        self.at_cursor
    }

    /// The cursor's byte offset.
    pub closed spec fn cursor(&self) -> u32 {
        self.cursor_offset
    }

    /// Whether the last call to `next` reached the cursor.
    pub fn at_cursor(&self) -> (r: bool)
        ensures
            r == self.reached(),
    {
        self.at_cursor
    }

    /// A lexer over the tokens of a source, with the cursor at
    /// `cursor_offset`. A cursor at offset 0 is reached before any token.
    pub fn new(tokens: Vec<Result<Token, LexError>>, cursor_offset: u32) -> (lexer: Self)
        ensures
            lexer.stream() == tokens@,
            lexer.read() == 0,
            lexer.cursor() == cursor_offset,
            lexer.phase() == (if cursor_offset == 0 { CursorState::Cursor } else { CursorState::Normal }),
            !lexer.reached(),
    {
        CursorAwareLexer {
            tokens,
            cursor_offset,
            state: if cursor_offset == 0 {
                CursorState::Cursor
            } else {
                CursorState::Normal
            },
            position: 0,
            at_cursor: false,
        }
    }

    /// The next token before the cursor, or `None` once the cursor (or the
    /// end of a token containing it) is reached.
    pub fn next(&mut self) -> (r: Option<Result<Token, LexError>>)
        requires
            old(self).read() <= old(self).stream().len(),
        ensures
            final(self).read() <= final(self).stream().len(),
            final(self).stream() == old(self).stream(),
            final(self).cursor() == old(self).cursor(),
            (final(self).phase(), final(self).read(), r, final(self).reached())
                == step(old(self).phase(), old(self).stream(), old(self).read(), old(self).cursor()),
    {
        let (result, at_cursor) = match self.state {
            CursorState::End => (None, false),
            CursorState::Cursor => {
                self.state = CursorState::End;
                (None, true)
            },
            CursorState::Normal => {
                if self.position >= self.tokens.len() {
                    self.state = CursorState::End;
                    (None, true)
                } else {
                    let next_token = self.tokens[self.position];
                    self.position = self.position + 1;
                    match next_token {
                        Err(e) => (Some(Err(e)), false),
                        Ok(token) => {
                            if token.span.lo >= self.cursor_offset {
                                self.state = CursorState::End;
                                (None, true)
                            } else if token.span.hi >= self.cursor_offset {
                                match token.kind {
                                    TokenKind::Ident | TokenKind::Keyword | TokenKind::And | TokenKind::Or => {
                                        self.state = CursorState::End;
                                        (None, true)
                                    },
                                    TokenKind::Other => {
                                        if token.span.hi == self.cursor_offset {
                                            self.state = CursorState::Cursor;
                                            (Some(Ok(token)), false)
                                        } else {
                                            self.state = CursorState::End;
                                            (None, false)
                                        }
                                    },
                                }
                            } else {
                                (Some(Ok(token)), false)
                            }
                        },
                    }
                }
            },
        };
        self.at_cursor = at_cursor;
        result
    }
}

} // verus!
