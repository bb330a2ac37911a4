//! The lexical alphabet: token kinds, tokens, and the keyword table.

use vstd::prelude::*;
use crate::source_file::SourceSpan;

verus! {

/// Describes the kind of a lexeme.
#[derive(Copy, Clone, Debug, Eq, PartialEq, Structural)]
pub enum TokenKind {
    // The essence of an off-side rule language grammar.
    NewLine,
    Indent,
    Dedent,
    // Lexical tokens.
    Identifier,
    Integer,
    // Keywords.
    Let,
    // Operators.
    Equal,
    // Pseudo-tokens.
    Invalid,
    MixedIndentation,
    InvalidIndentation,
    EndOfFile,
}

/// A single atomic unit of the language grammar. A value type: identifiers
/// and integers are recovered later by re-slicing the source with the span,
/// not stored in the token.
#[derive(Copy, Clone, Debug, Eq, PartialEq, Structural)]
pub struct Token {
    pub kind: TokenKind,
    /// Start (inclusive) and end (exclusive) byte positions in the source.
    pub span: SourceSpan,
}

impl Token {
    pub fn with_length(kind: TokenKind, start: usize, length: usize) -> (r: Self)
        requires
            start + length <= usize::MAX,
        ensures
            r == (Token { kind, span: SourceSpan { start, end: (start + length) as usize } }),
    {
        Self { kind, span: SourceSpan { start, end: start + length } }
    }
}

/// What the cursor and the parser may assume of a lexed token stream: it is
/// non-empty, it ends with EndOfFile, every span is ordered, and span starts
/// never decrease along the stream.
pub open spec fn stream_wf(ts: Seq<Token>) -> bool {
    &&& ts.len() >= 1
    &&& ts.last().kind == TokenKind::EndOfFile
    &&& forall|i: int| 0 <= i < ts.len() ==> (#[trigger] ts[i]).span.start <= ts[i].span.end
    &&& forall|a: int, b: int| 0 <= a <= b < ts.len() ==>
        (#[trigger] ts[a]).span.start <= (#[trigger] ts[b]).span.start
}

/// The bytes of the one keyword of the language.
pub open spec fn let_bytes() -> Seq<u8> {
    seq![108u8, 101u8, 116u8]
}

/// The fixed keyword table: `let` is the only keyword.
pub fn get_keyword_kind(identifier: &[u8]) -> (r: Option<TokenKind>)
    ensures
        r == (if identifier@ == let_bytes() {
            Some(TokenKind::Let)
        } else {
            None::<TokenKind>
        }),
{
    if identifier.len() == 3 && identifier[0] == 108 && identifier[1] == 101
        && identifier[2] == 116 {
        proof {
            assert(identifier@ =~= let_bytes());
        }
        Some(TokenKind::Let)
    } else {
        proof {
            if identifier@ == let_bytes() {
                assert(identifier@.len() == 3);
                assert(identifier@[0] == 108u8 && identifier@[1] == 101u8
                    && identifier@[2] == 116u8);
            }
        }
        None
    }
}

} // verus!
