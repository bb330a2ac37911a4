//! Single-pass scanner that turns source text plus a declared indentation
//! convention into an ordered sequence of tokens. Block structure is
//! reconstructed from leading whitespace as Indent/Dedent/NewLine
//! pseudo-tokens; inconsistent indentation becomes diagnostic pseudo-tokens
//! interleaved with the stream, so lexing never aborts.
//!
//! The lexer reads bytes, and its character classes are ASCII: digits,
//! identifiers and whitespace are the ASCII ones, and each byte outside
//! every class yields one Invalid token of length one. Identifiers made of
//! letters beyond ASCII are out of scope of this front end.

use vstd::prelude::*;
use crate::source_file::{IndentKind, SourceFile, SourceSpan, source_bytes};
use crate::token::{Token, TokenKind, let_bytes, get_keyword_kind};
use crate::text::{
    is_hspace, is_digit, is_alpha, is_alnum, is_space, is_tab, run_len, space_p, tab_p,
    digit_p, alnum_p, lemma_run_len_bound, lemma_run_len_range, lemma_run_len_exact,
};

verus! {

/// The token covering `[start, end)`.
pub open spec fn tok(kind: TokenKind, start: int, end: int) -> Token {
    Token { kind, span: SourceSpan { start: start as usize, end: end as usize } }
}

/// `count` copies of the same token, as an Indent or Dedent burst emits.
pub open spec fn repeat_tok(t: Token, count: int) -> Seq<Token> {
    Seq::new(count as nat, |i: int| t)
}

/// What one line feed at `i` contributes under a spaces convention of width
/// `n`, at current indentation level `lvl`: the emitted tokens, the position
/// scanning resumes at, and the new level.
pub open spec fn nl_spaces(src: Seq<u8>, i: int, lvl: int, n: int) -> (Seq<Token>, int, int) {
    let sc = run_len(src, i + 1, space_p()) as int;
    let j = i + 1 + sc;
    if j < src.len() && is_tab(src[j]) {
        // A tab where spaces were expected: report it and leave the level
        // unchanged.
        (seq![tok(TokenKind::NewLine, i, i + 1), tok(TokenKind::MixedIndentation, i + 1, i + 2)],
            j + 1, lvl)
    } else {
        let ic = sc / n;
        let base = if ic > lvl {
            repeat_tok(tok(TokenKind::Indent, i, i + 1), ic - lvl)
        } else if ic < lvl {
            repeat_tok(tok(TokenKind::Dedent, i, i + 1), lvl - ic)
        } else {
            seq![tok(TokenKind::NewLine, i, i + 1)]
        };
        let extra = if sc % n != 0 {
            seq![tok(TokenKind::InvalidIndentation, i, i + sc % n)]
        } else {
            Seq::<Token>::empty()
        };
        (base + extra, j, ic)
    }
}

/// What one line feed at `i` contributes under the tab convention.
pub open spec fn nl_tabs(src: Seq<u8>, i: int, lvl: int) -> (Seq<Token>, int, int) {
    let tc = run_len(src, i + 1, tab_p()) as int;
    let sc = run_len(src, i + 1 + tc, space_p()) as int;
    if sc > 0 {
        // Spaces where tabs were expected: report them and leave the level
        // unchanged.
        (seq![tok(TokenKind::NewLine, i, i + 1),
            tok(TokenKind::MixedIndentation, i + 1 + tc, i + 1 + tc + sc)], i + 1 + tc + sc, lvl)
    } else {
        let base = if tc > lvl {
            repeat_tok(tok(TokenKind::Indent, i, i + 1), tc - lvl)
        } else if tc < lvl {
            repeat_tok(tok(TokenKind::Dedent, i + 1, i + 1 + tc), lvl - tc)
        } else {
            seq![tok(TokenKind::NewLine, i, i + 1)]
        };
        (base, i + 1 + tc, tc)
    }
}

/// What one line feed contributes, keyed by the convention.
pub open spec fn nl_step(src: Seq<u8>, i: int, lvl: int, kind: IndentKind) -> (
    Seq<Token>,
    int,
    int,
) {
    match kind {
        IndentKind::Spaces(n) => nl_spaces(src, i, lvl, n as int),
        IndentKind::Tab => nl_tabs(src, i, lvl),
    }
}

/// The token sequence lexed from position `i` onward at indentation level
/// `lvl`, without the final EndOfFile token.
pub open spec fn lex_from(src: Seq<u8>, i: int, lvl: int, kind: IndentKind) -> Seq<Token>
    decreases src.len() - i,
    when 0 <= i
    via lex_from_dec
{
    if i >= src.len() {
        Seq::empty()
    } else {
        let c = src[i];
        if is_hspace(c) {
            // Horizontal whitespace outside line-start position is skipped.
            lex_from(src, i + 1, lvl, kind)
        } else if c == 10 {
            let (ts, j, l2) = nl_step(src, i, lvl, kind);
            ts + lex_from(src, j, l2, kind)
        } else if is_digit(c) {
            let l = 1 + run_len(src, i + 1, digit_p());
            seq![tok(TokenKind::Integer, i, i + l)] + lex_from(src, i + l, lvl, kind)
        } else if is_alpha(c) {
            let l = 1 + run_len(src, i + 1, alnum_p());
            let k = if src.subrange(i, i + l) == let_bytes() {
                TokenKind::Let
            } else {
                TokenKind::Identifier
            };
            seq![tok(k, i, i + l)] + lex_from(src, i + l, lvl, kind)
        } else if c == 61 {
            seq![tok(TokenKind::Equal, i, i + 1)] + lex_from(src, i + 1, lvl, kind)
        } else {
            seq![tok(TokenKind::Invalid, i, i + 1)] + lex_from(src, i + 1, lvl, kind)
        }
    }
}

#[via_fn]
proof fn lex_from_dec(src: Seq<u8>, i: int, lvl: int, kind: IndentKind) {
    if 0 <= i && i < src.len() {
        lemma_run_len_bound(src, i + 1, space_p());
        lemma_run_len_bound(src, i + 1, digit_p());
        lemma_run_len_bound(src, i + 1, alnum_p());
        lemma_run_len_bound(src, i + 1, tab_p());
        let tc = run_len(src, i + 1, tab_p()) as int;
        if i + 1 + tc <= src.len() {
            lemma_run_len_bound(src, i + 1 + tc, space_p());
        }
    }
}

/// The full token sequence for a source text: everything `lex_from` yields
/// from the start, terminated by one EndOfFile token at the end-of-input
/// position.
pub open spec fn lex_spec(src: Seq<u8>, kind: IndentKind) -> Seq<Token> {
    lex_from(src, 0, 0, kind).push(tok(TokenKind::EndOfFile, src.len() as int, src.len() as int))
}


/// What a token's kind promises about the source bytes under its span:
/// an Integer covers a non-empty maximal run of ASCII digits, an Identifier
/// covers a maximal alphanumeric run with an alphabetic first byte that is
/// not the keyword, and a Let covers exactly the keyword. Re-slicing the
/// source by the span therefore reproduces the consumed lexeme.
pub open spec fn token_content_ok(src: Seq<u8>, t: Token) -> bool {
    let a = t.span.start as int;
    let b = t.span.end as int;
    match t.kind {
        TokenKind::Integer => {
            &&& a < b
            &&& forall|k: int| a <= k < b ==> is_digit(#[trigger] src[k])
            &&& b == src.len() || !is_digit(src[b])
        }
        TokenKind::Identifier => {
            &&& a < b
            &&& is_alpha(src[a])
            &&& forall|k: int| a < k < b ==> is_alnum(#[trigger] src[k])
            &&& (b == src.len() || !is_alnum(src[b]))
            &&& src.subrange(a, b) != let_bytes()
        }
        TokenKind::Let => src.subrange(a, b) == let_bytes(),
        _ => true,
    }
}

/// Everything `lemma_lex_from_wf` establishes of a stretch of lexed tokens:
/// spans are ordered and lie within `[lo, src.len()]` with starts at most
/// `hi`, starts never decrease, EndOfFile does not occur, and each token's
/// content matches its kind.
pub open spec fn lex_toks_wf(src: Seq<u8>, lo: int, hi: int, ts: Seq<Token>) -> bool {
    &&& forall|k: int| 0 <= k < ts.len() ==> {
        let t = #[trigger] ts[k];
        &&& lo <= t.span.start <= hi
        &&& t.span.start <= t.span.end
        &&& t.span.end <= src.len()
        &&& t.kind != TokenKind::EndOfFile
        &&& token_content_ok(src, t)
    }
    &&& forall|a: int, b: int| 0 <= a <= b < ts.len() ==>
        (#[trigger] ts[a]).span.start <= (#[trigger] ts[b]).span.start
}

proof fn lemma_lex_toks_wf_widen(src: Seq<u8>, lo: int, lo2: int, hi: int, hi2: int, ts: Seq<Token>)
    requires
        lex_toks_wf(src, lo, hi, ts),
        lo2 <= lo,
        hi <= hi2,
    ensures
        lex_toks_wf(src, lo2, hi2, ts),
{
}

proof fn lemma_lex_toks_wf_concat(
    src: Seq<u8>,
    lo: int,
    mid: int,
    hi: int,
    a: Seq<Token>,
    b: Seq<Token>,
)
    requires
        lo <= mid <= hi,
        lex_toks_wf(src, lo, mid, a),
        lex_toks_wf(src, mid, hi, b),
    ensures
        lex_toks_wf(src, lo, hi, a + b),
{
    let c = a + b;
    assert forall|k: int| 0 <= k < c.len() implies {
        let t = #[trigger] c[k];
        &&& lo <= t.span.start <= hi
        &&& t.span.start <= t.span.end
        &&& t.span.end <= src.len()
        &&& t.kind != TokenKind::EndOfFile
        &&& token_content_ok(src, t)
    } by {
        if k < a.len() {
            assert(c[k] == a[k]);
        } else {
            assert(c[k] == b[k - a.len()]);
        }
    }
    assert forall|x: int, y: int| 0 <= x <= y < c.len() implies
        (#[trigger] c[x]).span.start <= (#[trigger] c[y]).span.start by {
        if y < a.len() {
            assert(c[x] == a[x] && c[y] == a[y]);
        } else if x >= a.len() {
            assert(c[x] == b[x - a.len()] && c[y] == b[y - a.len()]);
        } else {
            assert(c[x] == a[x] && c[y] == b[y - a.len()]);
            assert(a[x].span.start <= mid);
            assert(mid <= b[y - a.len()].span.start);
        }
    }
}

proof fn lemma_wf_single(src: Seq<u8>, lo: int, hi: int, t: Token)
    requires
        lo <= t.span.start <= hi,
        t.span.start <= t.span.end,
        t.span.end <= src.len(),
        t.kind != TokenKind::EndOfFile,
        token_content_ok(src, t),
    ensures
        lex_toks_wf(src, lo, hi, seq![t]),
{
    assert(seq![t][0] == t);
}

proof fn lemma_wf_repeat(src: Seq<u8>, lo: int, hi: int, t: Token, count: int)
    requires
        lo <= t.span.start <= hi,
        t.span.start <= t.span.end,
        t.span.end <= src.len(),
        t.kind != TokenKind::EndOfFile,
        token_content_ok(src, t),
    ensures
        lex_toks_wf(src, lo, hi, repeat_tok(t, count)),
{
    assert(forall|k: int| 0 <= k < repeat_tok(t, count).len() ==>
        #[trigger] repeat_tok(t, count)[k] == t);
}

/// The tokens of one newline step are well formed and their starts stay
/// below the position at which scanning resumes.
proof fn lemma_nl_step_wf(src: Seq<u8>, i: int, lvl: int, kind: IndentKind)
    requires
        0 <= i < src.len(),
        src.len() <= usize::MAX,
        src[i] == 10,
        0 <= lvl,
        kind.wf(),
    ensures
        ({
            let step = nl_step(src, i, lvl, kind);
            &&& i + 1 <= step.1 <= src.len()
            &&& 0 <= step.2
            &&& lex_toks_wf(src, i, step.1, step.0)
        }),
{
    let n = src.len() as int;
    lemma_run_len_bound(src, i + 1, space_p());
    lemma_run_len_bound(src, i + 1, tab_p());
    let step = nl_step(src, i, lvl, kind);
    match kind {
        IndentKind::Spaces(w) => {
            let sc = run_len(src, i + 1, space_p()) as int;
            let j0 = i + 1 + sc;
            assert(0 <= sc % (w as int) <= sc && sc / (w as int) >= 0) by (nonlinear_arith)
                requires w >= 1 && sc >= 0;
            if j0 < n && is_tab(src[j0]) {
                let t1 = tok(TokenKind::NewLine, i, i + 1);
                let t2 = tok(TokenKind::MixedIndentation, i + 1, i + 2);
                lemma_wf_single(src, i, i + 1, t1);
                lemma_wf_single(src, i + 1, j0 + 1, t2);
                lemma_lex_toks_wf_concat(src, i, i + 1, j0 + 1, seq![t1], seq![t2]);
                assert(seq![t1] + seq![t2] =~= step.0);
            } else {
                let ic = sc / (w as int);
                let r = sc % (w as int);
                let base = if ic > lvl {
                    repeat_tok(tok(TokenKind::Indent, i, i + 1), ic - lvl)
                } else if ic < lvl {
                    repeat_tok(tok(TokenKind::Dedent, i, i + 1), lvl - ic)
                } else {
                    seq![tok(TokenKind::NewLine, i, i + 1)]
                };
                if ic > lvl {
                    lemma_wf_repeat(src, i, i, tok(TokenKind::Indent, i, i + 1), ic - lvl);
                } else if ic < lvl {
                    lemma_wf_repeat(src, i, i, tok(TokenKind::Dedent, i, i + 1), lvl - ic);
                } else {
                    lemma_wf_single(src, i, i, tok(TokenKind::NewLine, i, i + 1));
                }
                assert(lex_toks_wf(src, i, i, base));
                if r != 0 {
                    lemma_wf_single(src, i, j0, tok(TokenKind::InvalidIndentation, i, i + r));
                    lemma_lex_toks_wf_concat(src, i, i, j0, base,
                        seq![tok(TokenKind::InvalidIndentation, i, i + r)]);
                } else {
                    lemma_lex_toks_wf_concat(src, i, i, j0, base, Seq::<Token>::empty());
                }
            }
        }
        IndentKind::Tab => {
            let tc = run_len(src, i + 1, tab_p()) as int;
            lemma_run_len_bound(src, i + 1 + tc, space_p());
            let sc = run_len(src, i + 1 + tc, space_p()) as int;
            if sc > 0 {
                let t1 = tok(TokenKind::NewLine, i, i + 1);
                let t2 = tok(TokenKind::MixedIndentation, i + 1 + tc, i + 1 + tc + sc);
                lemma_wf_single(src, i, i + 1, t1);
                lemma_wf_single(src, i + 1, i + 1 + tc + sc, t2);
                lemma_lex_toks_wf_concat(src, i, i + 1, i + 1 + tc + sc, seq![t1], seq![t2]);
                assert(seq![t1] + seq![t2] =~= step.0);
            } else {
                if tc > lvl {
                    lemma_wf_repeat(src, i, i + 1 + tc, tok(TokenKind::Indent, i, i + 1),
                        tc - lvl);
                } else if tc < lvl {
                    lemma_wf_repeat(src, i, i + 1 + tc,
                        tok(TokenKind::Dedent, i + 1, i + 1 + tc), lvl - tc);
                } else {
                    lemma_wf_single(src, i, i + 1 + tc, tok(TokenKind::NewLine, i, i + 1));
                }
            }
        }
    }
}

/// The central well-formedness fact about the lexer's output: every token
/// it emits from position `i` has an ordered, in-bounds span starting at or
/// after `i`, starts never decrease, EndOfFile is never emitted early, and
/// each Integer/Identifier/Let token covers exactly its lexeme.
pub proof fn lemma_lex_from_wf(src: Seq<u8>, i: int, lvl: int, kind: IndentKind)
    requires
        0 <= i <= src.len(),
        src.len() <= usize::MAX,
        0 <= lvl,
        kind.wf(),
    ensures
        lex_toks_wf(src, i, src.len() as int, lex_from(src, i, lvl, kind)),
    decreases src.len() - i,
{
    if i >= src.len() {
        return;
    }
    let c = src[i];
    let n = src.len() as int;
    if is_hspace(c) {
        lemma_lex_from_wf(src, i + 1, lvl, kind);
        lemma_lex_toks_wf_widen(src, i + 1, i, n, n, lex_from(src, i + 1, lvl, kind));
    } else if c == 10 {
        let step = nl_step(src, i, lvl, kind);
        lemma_nl_step_wf(src, i, lvl, kind);
        lemma_lex_from_wf(src, step.1, step.2, kind);
        lemma_lex_toks_wf_concat(src, i, step.1, n, step.0,
            lex_from(src, step.1, step.2, kind));
    } else if is_digit(c) {
        let l = 1 + run_len(src, i + 1, digit_p()) as int;
        lemma_run_len_range(src, i + 1, digit_p());
        let t = tok(TokenKind::Integer, i, i + l);
        assert forall|k: int| i <= k < i + l implies is_digit(#[trigger] src[k]) by {
            if k > i {
                assert((digit_p())(src[k]));
            }
        }
        if i + l < n {
            assert(!(digit_p())(src[i + l]));
        }
        assert(token_content_ok(src, t));
        lemma_wf_single(src, i, i + l, t);
        lemma_lex_from_wf(src, i + l, lvl, kind);
        lemma_lex_toks_wf_concat(src, i, i + l, n, seq![t], lex_from(src, i + l, lvl, kind));
    } else if is_alpha(c) {
        let l = 1 + run_len(src, i + 1, alnum_p()) as int;
        lemma_run_len_range(src, i + 1, alnum_p());
        let kd = if src.subrange(i, i + l) == let_bytes() {
            TokenKind::Let
        } else {
            TokenKind::Identifier
        };
        let t = tok(kd, i, i + l);
        assert forall|k: int| i < k < i + l implies is_alnum(#[trigger] src[k]) by {
            assert((alnum_p())(src[k]));
        }
        if i + l < n {
            assert(!(alnum_p())(src[i + l]));
        }
        assert(token_content_ok(src, t));
        lemma_wf_single(src, i, i + l, t);
        lemma_lex_from_wf(src, i + l, lvl, kind);
        lemma_lex_toks_wf_concat(src, i, i + l, n, seq![t], lex_from(src, i + l, lvl, kind));
    } else if c == 61 {
        let t = tok(TokenKind::Equal, i, i + 1);
        lemma_wf_single(src, i, i + 1, t);
        lemma_lex_from_wf(src, i + 1, lvl, kind);
        lemma_lex_toks_wf_concat(src, i, i + 1, n, seq![t], lex_from(src, i + 1, lvl, kind));
    } else {
        let t = tok(TokenKind::Invalid, i, i + 1);
        lemma_wf_single(src, i, i + 1, t);
        lemma_lex_from_wf(src, i + 1, lvl, kind);
        lemma_lex_toks_wf_concat(src, i, i + 1, n, seq![t], lex_from(src, i + 1, lvl, kind));
    }
}

/// The full lexed stream is well formed in the sense the cursor expects,
/// and EndOfFile occurs exactly once, at the end.
pub proof fn lemma_lex_spec_stream_wf(src: Seq<u8>, kind: IndentKind)
    requires
        src.len() <= usize::MAX,
        kind.wf(),
    ensures
        crate::token::stream_wf(lex_spec(src, kind)),
        lex_spec(src, kind).len() >= 1,
        forall|k: int| 0 <= k < lex_spec(src, kind).len() - 1 ==>
            (#[trigger] lex_spec(src, kind)[k]).kind != TokenKind::EndOfFile,
        forall|k: int| 0 <= k < lex_spec(src, kind).len() ==>
            (#[trigger] lex_spec(src, kind)[k]).span.start <= lex_spec(src, kind)[k].span.end
            && lex_spec(src, kind)[k].span.end <= src.len()
            && token_content_ok(src, lex_spec(src, kind)[k]),
{
    lemma_lex_from_wf(src, 0, 0, kind);
    let body = lex_from(src, 0, 0, kind);
    let ts = lex_spec(src, kind);
    assert(ts == body.push(tok(TokenKind::EndOfFile, src.len() as int, src.len() as int)));
    assert forall|k: int| 0 <= k < ts.len() implies
        (#[trigger] ts[k]).span.start <= ts[k].span.end
        && ts[k].span.end <= src.len()
        && token_content_ok(src, ts[k]) by {
        if k < body.len() {
            assert(ts[k] == body[k]);
        }
    }
    assert forall|a: int, b: int| 0 <= a <= b < ts.len() implies
        (#[trigger] ts[a]).span.start <= (#[trigger] ts[b]).span.start by {
        if b < body.len() {
            assert(ts[a] == body[a] && ts[b] == body[b]);
        } else if a < body.len() {
            assert(ts[a] == body[a]);
            assert(ts[a].span.start <= src.len());
        }
    }
}

proof fn lemma_lex_from_hspace_only(src: Seq<u8>, i: int, lvl: int, kind: IndentKind)
    requires
        0 <= i <= src.len(),
        forall|k: int| 0 <= k < src.len() ==> is_hspace(#[trigger] src[k]),
    ensures
        lex_from(src, i, lvl, kind) == Seq::<Token>::empty(),
    decreases src.len() - i,
{
    if i < src.len() {
        lemma_lex_from_hspace_only(src, i + 1, lvl, kind);
    }
}

/// A source consisting only of horizontal whitespace (spaces, tabs,
/// carriage returns) lexes to exactly one EndOfFile token and nothing
/// else, whatever the indentation convention. A line feed is excluded:
/// it opens a new line and so emits a structural token of its own.
pub proof fn lemma_whitespace_only_lexes_to_eof(src: Seq<u8>, kind: IndentKind)
    requires
        forall|k: int| 0 <= k < src.len() ==> is_hspace(#[trigger] src[k]),
    ensures
        lex_spec(src, kind) == seq![tok(TokenKind::EndOfFile, src.len() as int,
            src.len() as int)],
{
    lemma_lex_from_hspace_only(src, 0, 0, kind);
    assert(Seq::<Token>::empty().push(tok(TokenKind::EndOfFile, src.len() as int,
        src.len() as int)) =~= seq![tok(TokenKind::EndOfFile, src.len() as int,
        src.len() as int)]);
}

/// A line whose indentation is a tab lexes to a NewLine followed by a
/// MixedIndentation pseudo-token under every spaces convention, whatever
/// the configured width: tabs are never accepted as space indentation.
pub proof fn lemma_tab_under_spaces_is_mixed(n: usize)
    requires
        n >= 1,
    ensures
        lex_spec(seq![10u8, 9u8, 10u8], IndentKind::Spaces(n)) == seq![
            tok(TokenKind::NewLine, 0, 1),
            tok(TokenKind::MixedIndentation, 1, 2),
            tok(TokenKind::NewLine, 2, 3),
            tok(TokenKind::EndOfFile, 3, 3),
        ],
{
    let src = seq![10u8, 9u8, 10u8];
    let kind = IndentKind::Spaces(n);
    assert(0int / (n as int) == 0 && 0int % (n as int) == 0) by (nonlinear_arith)
        requires n >= 1;
    assert(!(space_p())(src[1]));
    assert(run_len(src, 1, space_p()) == 0);
    assert((tab_p())(src[1]));
    assert(run_len(src, 3, space_p()) == 0);
    let step0 = nl_spaces(src, 0, 0, n as int);
    assert(step0.0 == seq![tok(TokenKind::NewLine, 0, 1),
        tok(TokenKind::MixedIndentation, 1, 2)] && step0.1 == 2 && step0.2 == 0);
    let step2 = nl_spaces(src, 2, 0, n as int);
    assert(step2.0 == seq![tok(TokenKind::NewLine, 2, 3)] + Seq::<Token>::empty()
        && step2.1 == 3 && step2.2 == 0);
    assert(lex_from(src, 3, 0, kind) == Seq::<Token>::empty());
    assert(lex_from(src, 2, 0, kind) == step2.0 + Seq::<Token>::empty());
    assert(lex_from(src, 0, 0, kind) == step0.0 + lex_from(src, 2, 0, kind));
    assert(lex_spec(src, kind) =~= seq![
        tok(TokenKind::NewLine, 0, 1),
        tok(TokenKind::MixedIndentation, 1, 2),
        tok(TokenKind::NewLine, 2, 3),
        tok(TokenKind::EndOfFile, 3, 3),
    ]);
}

/// Round trip: every token in the lexed stream has an ordered, in-bounds
/// span, and for Integer, Identifier and Let tokens the source bytes under
/// the span are exactly the consumed lexeme: a maximal digit run, a maximal
/// alphanumeric run that is not the keyword, or the keyword itself.
pub proof fn lemma_lexeme_round_trip(src: Seq<u8>, kind: IndentKind, idx: int)
    requires
        src.len() <= usize::MAX,
        kind.wf(),
        0 <= idx < lex_spec(src, kind).len(),
    ensures
        ({
            let t = lex_spec(src, kind)[idx];
            &&& t.span.start <= t.span.end
            &&& t.span.end <= src.len()
            &&& token_content_ok(src, t)
        }),
{
    lemma_lex_spec_stream_wf(src, kind);
}

/// Holds the scanner state: the tokens emitted so far, the convention, the
/// current indentation level, and the read position in the source bytes.
pub struct Lexer {
    tokens: Vec<Token>,
    indent_kind: IndentKind,
    current_indent: usize,
    position: usize,
}

impl Lexer {
    fn add_token(&mut self, kind: TokenKind, start: usize, length: usize)
        requires
            start + length <= usize::MAX,
        ensures
            final(self).tokens@ == old(self).tokens@.push(
                tok(kind, start as int, start + length),
            ),
            final(self).indent_kind == old(self).indent_kind,
            final(self).current_indent == old(self).current_indent,
            final(self).position == old(self).position,
    {
        let t = Token::with_length(kind, start, length);
        self.tokens.push(t);
    }

    fn tokenize_integer(&mut self, source: &[u8], start: usize)
        requires
            old(self).position == start + 1,
            start < source@.len(),
            is_digit(source@[start as int]),
        ensures
            final(self).tokens@ == old(self).tokens@.push(
                tok(TokenKind::Integer, start as int,
                    start + 1 + run_len(source@, start + 1, digit_p())),
            ),
            final(self).position == start + 1 + run_len(source@, start + 1, digit_p()),
            final(self).position <= source@.len(),
            final(self).indent_kind == old(self).indent_kind,
            final(self).current_indent == old(self).current_indent,
    {
        while self.position < source.len()
            && 48 <= source[self.position] && source[self.position] <= 57
            invariant
                start + 1 <= self.position <= source@.len(),
                forall|k: int| start + 1 <= k < self.position ==>
                    (digit_p())(#[trigger] source@[k]),
                self.tokens == old(self).tokens,
                self.indent_kind == old(self).indent_kind,
                self.current_indent == old(self).current_indent,
            decreases source@.len() - self.position,
        {
            self.position += 1;
        }
        proof {
            assert(self.position == source@.len()
                || !(digit_p())(source@[self.position as int]));
            lemma_run_len_exact(source@, start + 1, self.position as int, digit_p());
        }
        let length = self.position - start;
        self.add_token(TokenKind::Integer, start, length);
    }

    fn tokenize_identifier(&mut self, source: &[u8], start: usize)
        requires
            old(self).position == start + 1,
            start < source@.len(),
            is_alpha(source@[start as int]),
        ensures
            ({
                let l = 1 + run_len(source@, start + 1, alnum_p());
                let k = if source@.subrange(start as int, start + l) == let_bytes() {
                    TokenKind::Let
                } else {
                    TokenKind::Identifier
                };
                final(self).tokens@ == old(self).tokens@.push(tok(k, start as int, start + l))
                    && final(self).position == start + l
            }),
            final(self).position <= source@.len(),
            final(self).indent_kind == old(self).indent_kind,
            final(self).current_indent == old(self).current_indent,
    {
        while self.position < source.len()
            && ((65 <= source[self.position] && source[self.position] <= 90)
                || (97 <= source[self.position] && source[self.position] <= 122)
                || (48 <= source[self.position] && source[self.position] <= 57))
            invariant
                start + 1 <= self.position <= source@.len(),
                forall|k: int| start + 1 <= k < self.position ==>
                    (alnum_p())(#[trigger] source@[k]),
                self.tokens == old(self).tokens,
                self.indent_kind == old(self).indent_kind,
                self.current_indent == old(self).current_indent,
            decreases source@.len() - self.position,
        {
            self.position += 1;
        }
        proof {
            assert(self.position == source@.len()
                || !(alnum_p())(source@[self.position as int]));
            lemma_run_len_exact(source@, start + 1, self.position as int, alnum_p());
        }
        let length = self.position - start;
        let lexeme: &[u8] = &source[start..self.position];
        match get_keyword_kind(lexeme) {
            Some(keyword) => self.add_token(keyword, start, length),
            None => self.add_token(TokenKind::Identifier, start, length),
        }
    }

    fn tokenize_newline_using_spaces(&mut self, source: &[u8], start: usize, spaces_per_indent: usize)
        requires
            old(self).position == start + 1,
            start < source@.len(),
            source@[start as int] == 10,
            spaces_per_indent >= 1,
        ensures
            ({
                let step = nl_spaces(source@, start as int, old(self).current_indent as int,
                    spaces_per_indent as int);
                final(self).tokens@ == old(self).tokens@ + step.0
                    && final(self).position == step.1
                    && final(self).current_indent == step.2
            }),
            final(self).position <= source@.len(),
            final(self).indent_kind == old(self).indent_kind,
    {
        while self.position < source.len() && source[self.position] == 32
            invariant
                start + 1 <= self.position <= source@.len(),
                forall|k: int| start + 1 <= k < self.position ==>
                    (space_p())(#[trigger] source@[k]),
                self.tokens == old(self).tokens,
                self.indent_kind == old(self).indent_kind,
                self.current_indent == old(self).current_indent,
            decreases source@.len() - self.position,
        {
            self.position += 1;
        }
        proof {
            assert(self.position == source@.len()
                || !(space_p())(source@[self.position as int]));
            lemma_run_len_exact(source@, start + 1, self.position as int, space_p());
        }
        let space_count = self.position - (start + 1);

        if self.position < source.len() && source[self.position] == 9 {
            self.position += 1;
            self.add_token(TokenKind::NewLine, start, 1);
            self.add_token(TokenKind::MixedIndentation, start + 1, 1);
            proof {
                let step = nl_spaces(source@, start as int, old(self).current_indent as int,
                    spaces_per_indent as int);
                assert(old(self).tokens@ + step.0 =~= self.tokens@);
            }
            return;
        }

        let indent_count = space_count / spaces_per_indent;
        let ghost toks0 = self.tokens@;
        if indent_count > self.current_indent {
            let t = Token::with_length(TokenKind::Indent, start, 1);
            let delta = indent_count - self.current_indent;
            let mut k: usize = 0;
            while k < delta
                invariant
                    k <= delta,
                    self.tokens@ == toks0 + repeat_tok(tok(TokenKind::Indent, start as int,
                        start + 1), k as int),
                    self.indent_kind == old(self).indent_kind,
                    self.current_indent == old(self).current_indent,
                    self.position == start + 1 + run_len(source@, start + 1, space_p()),
                decreases delta - k,
            {
                self.add_token(TokenKind::Indent, start, 1);
                k += 1;
                proof {
                    assert(repeat_tok(tok(TokenKind::Indent, start as int, start + 1), k as int)
                        =~= repeat_tok(tok(TokenKind::Indent, start as int, start + 1),
                            k - 1).push(tok(TokenKind::Indent, start as int, start + 1)));
                }
            }
        } else if indent_count < self.current_indent {
            let delta = self.current_indent - indent_count;
            let mut k: usize = 0;
            while k < delta
                invariant
                    k <= delta,
                    self.tokens@ == toks0 + repeat_tok(tok(TokenKind::Dedent, start as int,
                        start + 1), k as int),
                    self.indent_kind == old(self).indent_kind,
                    self.current_indent == old(self).current_indent,
                    self.position == start + 1 + run_len(source@, start + 1, space_p()),
                decreases delta - k,
            {
                self.add_token(TokenKind::Dedent, start, 1);
                k += 1;
                proof {
                    assert(repeat_tok(tok(TokenKind::Dedent, start as int, start + 1), k as int)
                        =~= repeat_tok(tok(TokenKind::Dedent, start as int, start + 1),
                            k - 1).push(tok(TokenKind::Dedent, start as int, start + 1)));
                }
            }
        } else {
            self.add_token(TokenKind::NewLine, start, 1);
            proof {
                assert(toks0 + seq![tok(TokenKind::NewLine, start as int, start + 1)]
                    =~= self.tokens@);
            }
        }

        let trailing_space_count = space_count % spaces_per_indent;
        proof {
            assert(space_count as int % spaces_per_indent as int <= space_count as int)
                by (nonlinear_arith)
                requires spaces_per_indent >= 1 && space_count >= 0;
        }
        if trailing_space_count != 0 {
            self.add_token(TokenKind::InvalidIndentation, start, trailing_space_count);
        }
        self.current_indent = indent_count;
        proof {
            let step = nl_spaces(source@, start as int, old(self).current_indent as int,
                spaces_per_indent as int);
            assert(old(self).tokens@ + step.0 =~= self.tokens@);
        }
    }

    fn tokenize_newline_using_tabs(&mut self, source: &[u8], start: usize)
        requires
            old(self).position == start + 1,
            start < source@.len(),
            source@[start as int] == 10,
        ensures
            ({
                let step = nl_tabs(source@, start as int, old(self).current_indent as int);
                final(self).tokens@ == old(self).tokens@ + step.0
                    && final(self).position == step.1
                    && final(self).current_indent == step.2
            }),
            final(self).position <= source@.len(),
            final(self).indent_kind == old(self).indent_kind,
    {
        while self.position < source.len() && source[self.position] == 9
            invariant
                start + 1 <= self.position <= source@.len(),
                forall|k: int| start + 1 <= k < self.position ==>
                    (tab_p())(#[trigger] source@[k]),
                self.tokens == old(self).tokens,
                self.indent_kind == old(self).indent_kind,
                self.current_indent == old(self).current_indent,
            decreases source@.len() - self.position,
        {
            self.position += 1;
        }
        proof {
            assert(self.position == source@.len()
                || !(tab_p())(source@[self.position as int]));
            lemma_run_len_exact(source@, start + 1, self.position as int, tab_p());
        }
        let tab_count = self.position - (start + 1);

        let ghost after_tabs = self.position as int;
        while self.position < source.len() && source[self.position] == 32
            invariant
                after_tabs <= self.position <= source@.len(),
                forall|k: int| after_tabs <= k < self.position ==>
                    (space_p())(#[trigger] source@[k]),
                self.tokens == old(self).tokens,
                self.indent_kind == old(self).indent_kind,
                self.current_indent == old(self).current_indent,
            decreases source@.len() - self.position,
        {
            self.position += 1;
        }
        proof {
            assert(self.position == source@.len()
                || !(space_p())(source@[self.position as int]));
            lemma_run_len_exact(source@, after_tabs, self.position as int, space_p());
        }
        let space_count = self.position - (start + 1) - tab_count;

        if space_count > 0 {
            self.add_token(TokenKind::NewLine, start, 1);
            self.add_token(TokenKind::MixedIndentation, start + tab_count + 1, space_count);
            proof {
                let step = nl_tabs(source@, start as int, old(self).current_indent as int);
                assert(old(self).tokens@ + step.0 =~= self.tokens@);
            }
            return;
        }

        let ghost toks0 = self.tokens@;
        if tab_count > self.current_indent {
            let delta = tab_count - self.current_indent;
            let mut k: usize = 0;
            while k < delta
                invariant
                    k <= delta,
                    self.tokens@ == toks0 + repeat_tok(tok(TokenKind::Indent, start as int,
                        start + 1), k as int),
                    self.indent_kind == old(self).indent_kind,
                    self.current_indent == old(self).current_indent,
                    self.position == start + 1 + run_len(source@, start + 1, tab_p()),
                decreases delta - k,
            {
                self.add_token(TokenKind::Indent, start, 1);
                k += 1;
                proof {
                    assert(repeat_tok(tok(TokenKind::Indent, start as int, start + 1), k as int)
                        =~= repeat_tok(tok(TokenKind::Indent, start as int, start + 1),
                            k - 1).push(tok(TokenKind::Indent, start as int, start + 1)));
                }
            }
        } else if tab_count < self.current_indent {
            let delta = self.current_indent - tab_count;
            let mut k: usize = 0;
            while k < delta
                invariant
                    k <= delta,
                    self.tokens@ == toks0 + repeat_tok(tok(TokenKind::Dedent, start + 1,
                        start + 1 + tab_count), k as int),
                    self.indent_kind == old(self).indent_kind,
                    self.current_indent == old(self).current_indent,
                    self.position == start + 1 + run_len(source@, start + 1, tab_p()),
                    tab_count == run_len(source@, start + 1, tab_p()),
                decreases delta - k,
            {
                self.add_token(TokenKind::Dedent, start + 1, tab_count);
                k += 1;
                proof {
                    assert(repeat_tok(tok(TokenKind::Dedent, start + 1, start + 1 + tab_count),
                        k as int)
                        =~= repeat_tok(tok(TokenKind::Dedent, start + 1, start + 1 + tab_count),
                            k - 1).push(tok(TokenKind::Dedent, start + 1,
                                start + 1 + tab_count)));
                }
            }
        } else {
            self.add_token(TokenKind::NewLine, start, 1);
        }
        self.current_indent = tab_count;
        proof {
            let step = nl_tabs(source@, start as int, old(self).current_indent as int);
            assert(old(self).tokens@ + step.0 =~= self.tokens@);
        }
    }

    fn tokenize_newline(&mut self, source: &[u8], start: usize)
        requires
            old(self).position == start + 1,
            start < source@.len(),
            source@[start as int] == 10,
            old(self).indent_kind.wf(),
        ensures
            ({
                let step = nl_step(source@, start as int, old(self).current_indent as int,
                    old(self).indent_kind);
                final(self).tokens@ == old(self).tokens@ + step.0
                    && final(self).position == step.1
                    && final(self).current_indent == step.2
            }),
            final(self).position <= source@.len(),
            final(self).indent_kind == old(self).indent_kind,
    {
        match self.indent_kind {
            IndentKind::Spaces(spaces_per_indent) => {
                self.tokenize_newline_using_spaces(source, start, spaces_per_indent);
            }
            IndentKind::Tab => {
                self.tokenize_newline_using_tabs(source, start);
            }
        }
    }

    fn run(&mut self, source: &[u8])
        requires
            old(self).position <= source@.len(),
            old(self).indent_kind.wf(),
        ensures
            final(self).tokens@ == old(self).tokens@
                + lex_from(source@, old(self).position as int, old(self).current_indent as int,
                    old(self).indent_kind)
                + seq![tok(TokenKind::EndOfFile, source@.len() as int, source@.len() as int)],
            final(self).indent_kind == old(self).indent_kind,
    {
        while self.position < source.len()
            invariant
                self.position <= source@.len(),
                self.indent_kind == old(self).indent_kind,
                self.indent_kind.wf(),
                old(self).tokens@ + lex_from(source@, old(self).position as int,
                    old(self).current_indent as int, old(self).indent_kind)
                    == self.tokens@ + lex_from(source@, self.position as int,
                        self.current_indent as int, self.indent_kind),
            decreases source@.len() - self.position,
        {
            let ghost toks_pre = self.tokens@;
            let ghost lvl_pre = self.current_indent as int;
            let ghost kind = self.indent_kind;
            let ghost tail0 = lex_from(source@, self.position as int, lvl_pre, kind);
            let start = self.position;
            let c = source[start];
            self.position = start + 1;

            if c == 32 || c == 9 || c == 13 {
                proof {
                    assert(tail0 == lex_from(source@, start + 1, lvl_pre, kind));
                }
                continue;
            }
            if c == 10 {
                self.tokenize_newline(source, start);
                proof {
                    let step = nl_step(source@, start as int, lvl_pre, kind);
                    assert(tail0 == step.0 + lex_from(source@, step.1, step.2, kind));
                    assert(toks_pre + tail0
                        =~= self.tokens@ + lex_from(source@, step.1, step.2, kind));
                }
                continue;
            }
            if 48 <= c && c <= 57 {
                self.tokenize_integer(source, start);
                proof {
                    let l = 1 + run_len(source@, start + 1, digit_p());
                    let t = tok(TokenKind::Integer, start as int, start + l);
                    assert(tail0 == seq![t] + lex_from(source@, start + l, lvl_pre, kind));
                    assert(toks_pre + tail0
                        =~= self.tokens@ + lex_from(source@, start + l, lvl_pre, kind));
                }
                continue;
            }
            if (65 <= c && c <= 90) || (97 <= c && c <= 122) {
                self.tokenize_identifier(source, start);
                proof {
                    let l = 1 + run_len(source@, start + 1, alnum_p());
                    let k = if source@.subrange(start as int, start + l) == let_bytes() {
                        TokenKind::Let
                    } else {
                        TokenKind::Identifier
                    };
                    let t = tok(k, start as int, start + l);
                    assert(tail0 == seq![t] + lex_from(source@, start + l, lvl_pre, kind));
                    assert(toks_pre + tail0
                        =~= self.tokens@ + lex_from(source@, start + l, lvl_pre, kind));
                }
                continue;
            }
            if c == 61 {
                self.add_token(TokenKind::Equal, start, 1);
                proof {
                    let t = tok(TokenKind::Equal, start as int, start + 1);
                    assert(tail0 == seq![t] + lex_from(source@, start + 1, lvl_pre, kind));
                    assert(toks_pre + tail0
                        =~= self.tokens@ + lex_from(source@, start + 1, lvl_pre, kind));
                }
                continue;
            }
            self.add_token(TokenKind::Invalid, start, 1);
            proof {
                let t = tok(TokenKind::Invalid, start as int, start + 1);
                assert(tail0 == seq![t] + lex_from(source@, start + 1, lvl_pre, kind));
                assert(toks_pre + tail0
                    =~= self.tokens@ + lex_from(source@, start + 1, lvl_pre, kind));
            }
        }
        self.add_token(TokenKind::EndOfFile, source.len(), 0);
        proof {
            assert(lex_from(source@, source@.len() as int, self.current_indent as int,
                self.indent_kind) =~= Seq::<Token>::empty());
            assert(old(self).tokens@
                + lex_from(source@, old(self).position as int, old(self).current_indent as int,
                    old(self).indent_kind)
                + seq![tok(TokenKind::EndOfFile, source@.len() as int, source@.len() as int)]
                =~= self.tokens@);
        }
    }
}


impl Lexer {
    /// Turns the given source file's text into a sequence of tokens under
    /// the file's indentation convention.
    pub fn tokenize(source_file: &SourceFile) -> (r: Vec<Token>)
        requires
            source_file.indent_kind.wf(),
        ensures
            r@ == lex_spec(source_bytes(source_file.source_code@), source_file.indent_kind),
            crate::token::stream_wf(r@),
    {
        Self::tokenize_source_code(source_file.source_code.as_str(), source_file.indent_kind)
    }

    /// Turns the given source text into a sequence of tokens: exactly what
    /// `lex_spec` describes, always ending in one EndOfFile token. Malformed
    /// indentation never aborts lexing; it surfaces as diagnostic
    /// pseudo-tokens inside the stream.
    pub fn tokenize_source_code(source_code: &str, indent_kind: IndentKind) -> (r: Vec<Token>)
        requires
            indent_kind.wf(),
        ensures
            r@ == lex_spec(source_bytes(source_code@), indent_kind),
            crate::token::stream_wf(r@),
    {
        let bytes: &[u8] = source_code.as_bytes();
        let mut lexer = Lexer {
            tokens: Vec::new(),
            indent_kind,
            current_indent: 0,
            position: 0,
        };
        let source_len = bytes.len();
        lexer.run(bytes);
        proof {
            assert(bytes@.len() == source_len <= usize::MAX);
            assert(lexer.tokens@ =~= lex_spec(bytes@, indent_kind));
            lemma_lex_spec_stream_wf(bytes@, indent_kind);
        }
        lexer.tokens
    }
}

} // verus!
