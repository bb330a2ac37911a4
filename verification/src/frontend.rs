//! Post-lexing diagnostics: scanning the emitted token stream for the
//! indentation pseudo-tokens and recording them with the session.

use vstd::prelude::*;
use crate::parse_session::ParseSession;
use crate::token::{Token, TokenKind};
use crate::tokens::Tokens;

verus! {

/// The diagnostic pseudo-tokens that indentation checking reports.
pub open spec fn is_indent_diag(t: Token) -> bool {
    t.kind == TokenKind::MixedIndentation || t.kind == TokenKind::InvalidIndentation
}

/// The indentation diagnostics in `ts` from position `i` on, in order.
pub open spec fn indent_diags_from(ts: Seq<Token>, i: int) -> Seq<Token>
    decreases ts.len() - i,
{
    if i < 0 || i >= ts.len() {
        Seq::empty()
    } else {
        (if is_indent_diag(ts[i]) {
            seq![ts[i]]
        } else {
            Seq::<Token>::empty()
        }) + indent_diags_from(ts, i + 1)
    }
}

/// All indentation diagnostics in `ts`, in order.
pub open spec fn indent_diags(ts: Seq<Token>) -> Seq<Token> {
    indent_diags_from(ts, 0)
}

/// Walks the lexed stream, records one error with the session for each
/// MixedIndentation or InvalidIndentation pseudo-token, and returns those
/// tokens in order so the caller can report each of them.
pub fn find_mixed_and_invalid_indentations(session: &mut ParseSession, tokens: &Tokens) -> (r:
    Vec<Token>)
    requires
        old(session).spec_error_count() + tokens.toks().len() <= usize::MAX,
    ensures
        r@ == indent_diags(tokens.toks()),
        final(session).spec_error_count() == old(session).spec_error_count() + r@.len(),
        final(session).spec_warning_count() == old(session).spec_warning_count(),
        final(session).spec_source_file() == old(session).spec_source_file(),
{
    let ts = tokens.as_vec();
    let mut found: Vec<Token> = Vec::new();
    let mut i: usize = 0;
    while i < ts.len()
        invariant
            0 <= i <= ts@.len(),
            ts@ == tokens.toks(),
            found@.len() <= i,
            indent_diags(ts@) == found@ + indent_diags_from(ts@, i as int),
            session.spec_error_count() == old(session).spec_error_count() + found@.len(),
            session.spec_warning_count() == old(session).spec_warning_count(),
            session.spec_source_file() == old(session).spec_source_file(),
            old(session).spec_error_count() + ts@.len() <= usize::MAX,
        decreases ts@.len() - i,
    {
        let t = ts[i];
        let ghost pre = found@;
        match t.kind {
            TokenKind::MixedIndentation | TokenKind::InvalidIndentation => {
                session.error(t.span);
                found.push(t);
                proof {
                    assert(pre + (seq![t] + indent_diags_from(ts@, i + 1))
                        =~= found@ + indent_diags_from(ts@, i + 1));
                }
            }
            _ => {
                proof {
                    assert(pre + (Seq::<Token>::empty() + indent_diags_from(ts@, i + 1))
                        =~= found@ + indent_diags_from(ts@, i + 1));
                }
            }
        }
        i += 1;
    }
    proof {
        assert(found@ + indent_diags_from(ts@, ts@.len() as int) =~= found@);
    }
    found
}

} // verus!
