//! Position-tracking reader over the lexer's output, exposing the
//! peek/consume/expect vocabulary the parser drives.

use vstd::prelude::*;
use crate::token::{Token, TokenKind, stream_wf};

verus! {

/// A cursor over a lexed token stream. The cursor never advances past the
/// final EndOfFile token, and its position never decreases.
pub struct Tokens {
    tokens: Vec<Token>,
    position: usize,
}

impl Tokens {
    /// The underlying token sequence.
    pub closed spec fn toks(&self) -> Seq<Token> {
        self.tokens@
    }

    /// The current cursor position.
    pub closed spec fn pos(&self) -> int {
        self.position as int
    }

    /// The token under the cursor.
    pub open spec fn cur(&self) -> Token {
        self.toks()[self.pos()]
    }

    /// The cursor invariant: the stream is a well-formed lexer output and
    /// the position stays on it.
    pub open spec fn wf(&self) -> bool {
        &&& stream_wf(self.toks())
        &&& 0 <= self.pos() < self.toks().len()
    }

    pub fn new(tokens: Vec<Token>) -> (r: Self)
        requires
            stream_wf(tokens@),
        ensures
            r.wf(),
            r.toks() == tokens@,
            r.pos() == 0,
    {
        Self { tokens, position: 0 }
    }

    /// The underlying collection of tokens.
    pub fn as_vec(&self) -> (r: &Vec<Token>)
        ensures
            r@ == self.toks(),
    {
        &self.tokens
    }

    /// Whether the token under the cursor is EndOfFile.
    pub fn at_end(&self) -> (r: bool)
        requires
            self.wf(),
        ensures
            r == (self.cur().kind == TokenKind::EndOfFile),
    {
        self.tokens[self.position].kind == TokenKind::EndOfFile
    }

    /// The first unconsumed token, without advancing.
    pub fn peek(&mut self) -> (r: Token)
        requires
            old(self).wf(),
        ensures
            *final(self) == *old(self),
            r == old(self).cur(),
    {
        self.tokens[self.position]
    }

    /// The most recently advanced-past token. Calling this before any
    /// advance is a contract violation.
    pub fn previous(&mut self) -> (r: Token)
        requires
            old(self).wf(),
            old(self).pos() >= 1,
        ensures
            *final(self) == *old(self),
            r == old(self).toks()[old(self).pos() - 1],
    {
        self.tokens[self.position - 1]
    }

    /// The current token; advances past it, except at EndOfFile, where the
    /// EndOfFile token is returned again without moving.
    pub fn advance(&mut self) -> (r: Token)
        requires
            old(self).wf(),
        ensures
            final(self).wf(),
            final(self).toks() == old(self).toks(),
            r == old(self).cur(),
            old(self).cur().kind != TokenKind::EndOfFile ==>
                final(self).pos() == old(self).pos() + 1,
            old(self).cur().kind == TokenKind::EndOfFile ==>
                final(self).pos() == old(self).pos(),
    {
        if self.tokens[self.position].kind != TokenKind::EndOfFile {
            let n = self.tokens.len();
            proof {
                assert(old(self).toks().last().kind == TokenKind::EndOfFile);
                assert(self.position < n <= usize::MAX);
            }
            self.position += 1;
            self.tokens[self.position - 1]
        } else {
            self.tokens[self.position]
        }
    }

    /// Whether the token under the cursor has the given kind, without
    /// consuming it.
    pub fn check(&mut self, kind: TokenKind) -> (r: bool)
        requires
            old(self).wf(),
        ensures
            *final(self) == *old(self),
            r == (old(self).cur().kind == kind),
    {
        self.tokens[self.position].kind == kind
    }

    /// If the token under the cursor has the given kind, advances past it
    /// and returns it; otherwise the cursor does not move.
    pub fn consume(&mut self, kind: TokenKind) -> (r: Option<Token>)
        requires
            old(self).wf(),
            kind != TokenKind::EndOfFile,
        ensures
            final(self).wf(),
            final(self).toks() == old(self).toks(),
            old(self).cur().kind == kind ==> {
                &&& r == Some(old(self).cur())
                &&& final(self).pos() == old(self).pos() + 1
            },
            old(self).cur().kind != kind ==> {
                &&& r is None
                &&& *final(self) == *old(self)
            },
    {
        if self.tokens[self.position].kind == kind {
            let n = self.tokens.len();
            proof {
                assert(old(self).toks().last().kind == TokenKind::EndOfFile);
                assert(self.position < n <= usize::MAX);
            }
            self.position += 1;
            Some(self.tokens[self.position - 1])
        } else {
            None
        }
    }
}

} // verus!
