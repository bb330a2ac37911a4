//! Recursive-descent parser over the token cursor. Builds the AST
//! bottom-up, hands every node a fresh id from one shared generator, and
//! reports the first structural error as a value instead of recovering.

use vstd::prelude::*;
use crate::ast::{
    Program, Block, Item, ItemKind, LetBinding, LetBody, Expr, ExprKind, Literal, LiteralKind,
    ids_of_literal, ids_of_expr, ids_of_body, ids_of_let_binding, ids_of_item, ids_of_items,
    ids_of_block, ids_of_program, expr_wf, body_wf, let_binding_wf, item_wf, block_wf,
    program_wf, int_range, lemma_ids_of_items_push, lemma_int_range_concat,
};
use crate::node_id::NodeIdGenerator;
use crate::parse_session::ParseSession;
use crate::source_file::SourceSpan;
use crate::token::{Token, TokenKind};
use crate::tokens::Tokens;

verus! {

/// What the parser was looking for when it failed.
#[derive(Copy, Clone, Debug, PartialEq, Eq, Structural)]
pub enum Expectation {
    /// A token of this exact kind.
    Token(TokenKind),
    /// An identifier naming the binding.
    Identifier,
    /// The start of an expression.
    Expression,
}

/// A structural parse error: what was expected, what was found, and where.
/// The first such error ends the parse; there is no resynchronization.
#[derive(Copy, Clone, Debug, PartialEq, Eq, Structural)]
pub struct ParseError {
    pub span: SourceSpan,
    pub expected: Expectation,
    pub found: TokenKind,
}

// The relation between a stretch of the token stream and the node the
// parser builds from it. `x_matches(ts, p, g, x, p2, g2)` says: parsing at
// position `p` with next id `g` yields exactly the node `x`, leaving the
// cursor at `p2` and the next id at `g2`. Each production's Ok result is
// pinned by its relation, the way the lexer's result is pinned by
// `lex_spec`.

/// An expression: a single Integer token, carrying the expression id and
/// then the literal id.
pub open spec fn expr_matches(ts: Seq<Token>, p: int, g: int, e: Expr, p2: int, g2: int) -> bool
    decreases e,
{
    &&& 0 <= p < ts.len()
    &&& ts[p].kind == TokenKind::Integer
    &&& e.id.spec_id() == g
    &&& e.span == ts[p].span
    &&& match e.kind {
        ExprKind::Literal(l) => {
            &&& l.id.spec_id() == g + 1
            &&& l.span == ts[p].span
            &&& l.kind == LiteralKind::Integer
        }
    }
    &&& p2 == p + 1
    &&& g2 == g + 2
}

/// An item: a let binding exactly when the token at `p` is the `let`
/// keyword, a bare expression otherwise. The item id comes last and the
/// item's span is its child's.
pub open spec fn item_matches(ts: Seq<Token>, p: int, g: int, it: Item, p2: int, g2: int) -> bool
    decreases it,
{
    &&& 0 <= p < ts.len()
    &&& match it.kind {
        ItemKind::LetBinding(lb) => {
            &&& ts[p].kind == TokenKind::Let
            &&& let_binding_matches(ts, p + 1, g, lb, p2, g2 - 1)
            &&& it.span == lb.span
        }
        ItemKind::Expr(e) => {
            &&& ts[p].kind != TokenKind::Let
            &&& expr_matches(ts, p, g, e, p2, g2 - 1)
            &&& it.span == e.span
        }
    }
    &&& it.id.spec_id() == g2 - 1
}

/// The rest of a let binding, entered just after its `let` keyword at
/// `p - 1`: an Identifier, an Equal, and a body. The binding's span runs
/// from the keyword's start to the end of the last consumed token.
pub open spec fn let_binding_matches(
    ts: Seq<Token>,
    p: int,
    g: int,
    lb: LetBinding,
    p2: int,
    g2: int,
) -> bool
    decreases lb,
{
    &&& 1 <= p && p + 1 < ts.len()
    &&& ts[p].kind == TokenKind::Identifier
    &&& lb.identifier.id.spec_id() == g
    &&& lb.identifier.span == ts[p].span
    &&& lb.identifier.kind == LiteralKind::Identifier
    &&& ts[p + 1].kind == TokenKind::Equal
    &&& body_matches(ts, p + 2, g + 1, lb.body, p2, g2 - 1)
    &&& lb.id.spec_id() == g2 - 1
    &&& lb.span.start == ts[p - 1].span.start
    &&& 1 <= p2 <= ts.len()
    &&& lb.span.end == ts[p2 - 1].span.end
}

/// A binding's body: a nested block exactly when the token at `p` is an
/// Indent, otherwise one expression followed by a NewLine.
pub open spec fn body_matches(ts: Seq<Token>, p: int, g: int, b: LetBody, p2: int, g2: int) -> bool
    decreases b,
{
    &&& 0 <= p < ts.len()
    &&& match b {
        LetBody::Block(bl) => {
            &&& ts[p].kind == TokenKind::Indent
            &&& block_matches(ts, p, g, bl, p2, g2)
        }
        LetBody::Expr(e) => {
            &&& ts[p].kind != TokenKind::Indent
            &&& expr_matches(ts, p, g, e, p2 - 1, g2)
            &&& 0 <= p2 - 1 < ts.len()
            &&& ts[p2 - 1].kind == TokenKind::NewLine
        }
    }
}

// Deterministic scanners over the token stream, one per production. Each
// gives the position and next id after the production starting at `p`
// with next id `g`, or None where the production fails. They mirror the
// executable parser exactly and supply the item boundaries that the
// relations below thread through a run of items.

pub open spec fn expr_scan(ts: Seq<Token>, p: int, g: int) -> Option<(int, int)> {
    if 0 <= p < ts.len() && ts[p].kind == TokenKind::Integer {
        Some((p + 1, g + 2))
    } else {
        None
    }
}

pub open spec fn item_scan(ts: Seq<Token>, p: int, g: int) -> Option<(int, int)>
    decreases ts.len() - p, 3int,
{
    if !(0 <= p < ts.len()) {
        None
    } else if ts[p].kind == TokenKind::Let {
        match let_binding_scan(ts, p + 1, g) {
            Some(step) => Some((step.0, step.1 + 1)),
            None => None,
        }
    } else {
        match expr_scan(ts, p, g) {
            Some(step) => Some((step.0, step.1 + 1)),
            None => None,
        }
    }
}

pub open spec fn let_binding_scan(ts: Seq<Token>, p: int, g: int) -> Option<(int, int)>
    decreases ts.len() - p, 0int,
{
    if 1 <= p && p + 1 < ts.len() && ts[p].kind == TokenKind::Identifier
        && ts[p + 1].kind == TokenKind::Equal {
        match body_scan(ts, p + 2, g + 1) {
            Some(step) => Some((step.0, step.1 + 1)),
            None => None,
        }
    } else {
        None
    }
}

pub open spec fn body_scan(ts: Seq<Token>, p: int, g: int) -> Option<(int, int)>
    decreases ts.len() - p, 2int,
{
    if !(0 <= p < ts.len()) {
        None
    } else if ts[p].kind == TokenKind::Indent {
        block_scan(ts, p, g)
    } else {
        match expr_scan(ts, p, g) {
            Some(step) => if step.0 < ts.len() && ts[step.0].kind == TokenKind::NewLine {
                Some((step.0 + 1, step.1))
            } else {
                None
            },
            None => None,
        }
    }
}

pub open spec fn block_scan(ts: Seq<Token>, p: int, g: int) -> Option<(int, int)>
    decreases ts.len() - p, 1int,
{
    if !(0 <= p < ts.len() && ts[p].kind == TokenKind::Indent) {
        None
    } else {
        match items_scan(ts, p + 1, g) {
            Some(step) => if step.0 < ts.len() && ts[step.0].kind == TokenKind::Dedent {
                Some((step.0 + 1, step.1 + 1))
            } else {
                Some((step.0, step.1 + 1))
            },
            None => None,
        }
    }
}

/// Items accumulated until a Dedent or EndOfFile token; the progress guard
/// never fires, since an item always consumes at least one token.
pub open spec fn items_scan(ts: Seq<Token>, p: int, g: int) -> Option<(int, int)>
    decreases ts.len() - p, 4int,
{
    if !(0 <= p < ts.len()) {
        None
    } else if ts[p].kind == TokenKind::Dedent || ts[p].kind == TokenKind::EndOfFile {
        Some((p, g))
    } else {
        match item_scan(ts, p, g) {
            Some(step) => if p < step.0 <= ts.len() {
                items_scan(ts, step.0, step.1)
            } else {
                None
            },
            None => None,
        }
    }
}

/// Consecutive items covering `[p, p2)` with ids `[g, g2)`: each item
/// matches the stretch the scanner gives it, and the next item starts
/// where the previous one ended.
pub open spec fn items_match(
    ts: Seq<Token>,
    p: int,
    g: int,
    items: Seq<Item>,
    p2: int,
    g2: int,
) -> bool
    decreases items,
{
    if items.len() == 0 {
        p2 == p && g2 == g
    } else {
        match item_scan(ts, p, g) {
            Some(step) => {
                &&& item_matches(ts, p, g, items[0], step.0, step.1)
                &&& items_match(ts, step.0, step.1, items.subrange(1, items.len() as int),
                    p2, g2)
            }
            None => false,
        }
    }
}

/// Appending one more matched item extends a matched run.
proof fn lemma_items_match_push(
    ts: Seq<Token>,
    p: int,
    g: int,
    items: Seq<Item>,
    pm: int,
    gm: int,
    it: Item,
    p2: int,
    g2: int,
)
    requires
        items_match(ts, p, g, items, pm, gm),
        item_matches(ts, pm, gm, it, p2, g2),
        item_scan(ts, pm, gm) == Some((p2, g2)),
    ensures
        items_match(ts, p, g, items.push(it), p2, g2),
    decreases items.len(),
{
    reveal_with_fuel(items_match, 3);
    let ni = items.push(it);
    if items.len() == 0 {
        assert(ni[0] == it);
        assert(ni.subrange(1, ni.len() as int) =~= Seq::<Item>::empty());
    } else {
        let step = item_scan(ts, p, g)->Some_0;
        lemma_items_match_push(ts, step.0, step.1, items.subrange(1, items.len() as int),
            pm, gm, it, p2, g2);
        assert(ni[0] == items[0]);
        assert(ni.subrange(1, ni.len() as int)
            =~= items.subrange(1, items.len() as int).push(it));
    }
}

/// A block: an Indent, then items accumulated until a Dedent or the end
/// of the stream, then the Dedent if there is one (a missing Dedent at
/// end of stream is tolerated). The block's span runs from the Indent's
/// start to the end of the last consumed token.
pub open spec fn block_matches(ts: Seq<Token>, p: int, g: int, bl: Block, p2: int, g2: int) -> bool
    decreases bl,
{
    &&& 0 <= p < ts.len()
    &&& ts[p].kind == TokenKind::Indent
    &&& bl.id.spec_id() == g2 - 1
    &&& bl.span.start == ts[p].span.start
    &&& 1 <= p2 <= ts.len()
    &&& bl.span.end == ts[p2 - 1].span.end
    &&& {
        ||| (ts[p2 - 1].kind == TokenKind::Dedent
            && items_match(ts, p + 1, g, bl.items@, p2 - 1, g2 - 1))
        ||| (p2 < ts.len() && ts[p2].kind == TokenKind::EndOfFile
            && ts[p2].kind != TokenKind::Dedent
            && items_match(ts, p + 1, g, bl.items@, p2, g2 - 1))
    }
}

/// A whole program: items accumulated until EndOfFile, then the Program
/// node, whose id comes last.
pub open spec fn program_matches(
    ts: Seq<Token>,
    p: int,
    g: int,
    prog: Program,
    p2: int,
    g2: int,
) -> bool {
    &&& items_match(ts, p, g, prog.body@, p2, g2 - 1)
    &&& prog.id.spec_id() == g2 - 1
    &&& 0 <= p2 < ts.len()
    &&& ts[p2].kind == TokenKind::EndOfFile
}

/// The four tokens at `p` open a let binding whose body starts with a
/// token that can begin neither a block nor an expression; on such a
/// stream parsing fails with exactly the expression-expected error at
/// that token.
pub open spec fn bad_let_expr_at(ts: Seq<Token>, p: int) -> bool {
    &&& 0 <= p && p + 3 < ts.len()
    &&& ts[p].kind == TokenKind::Let
    &&& ts[p + 1].kind == TokenKind::Identifier
    &&& ts[p + 2].kind == TokenKind::Equal
    &&& ts[p + 3].kind != TokenKind::Indent
    &&& ts[p + 3].kind != TokenKind::Integer
}

/// The error that reports "an expression was expected" at the token at
/// `p`.
pub open spec fn expression_error_at(ts: Seq<Token>, p: int) -> ParseError {
    ParseError { span: ts[p].span, expected: Expectation::Expression, found: ts[p].kind }
}

/// Drives the token cursor and allocates node ids while parsing.
pub struct Parser {
    tokens: Tokens,
    id_generator: NodeIdGenerator,
}

impl Parser {
    pub closed spec fn cursor(&self) -> Tokens {
        self.tokens
    }

    pub closed spec fn generator(&self) -> NodeIdGenerator {
        self.id_generator
    }

    /// The token stream being parsed.
    pub open spec fn toks(&self) -> Seq<Token> {
        self.cursor().toks()
    }

    /// The cursor position.
    pub open spec fn pos(&self) -> int {
        self.cursor().pos()
    }

    /// The next id the generator will hand out.
    pub open spec fn gen_next(&self) -> int {
        self.generator().spec_next()
    }

    /// The token under the cursor.
    pub open spec fn cur(&self) -> Token {
        self.toks()[self.pos()]
    }

    /// The parser invariant: the cursor is well formed, and enough id
    /// space is left for the tokens not yet consumed (at most three ids
    /// are allocated per consumed token, plus one for the root).
    pub open spec fn wf(&self) -> bool {
        &&& self.cursor().wf()
        &&& 0 <= self.gen_next()
        &&& self.gen_next() + 3 * (self.toks().len() - 1 - self.pos()) + 1 <= usize::MAX
    }

    /// Relates two parser states across one parsing step: the stream is
    /// unchanged, the cursor only moved forward, and the ids allocated stay
    /// within budget.
    pub open spec fn stepped(pre: Parser, post: Parser) -> bool {
        &&& post.toks() == pre.toks()
        &&& post.wf()
        &&& pre.pos() <= post.pos()
        &&& pre.gen_next() <= post.gen_next()
        &&& post.gen_next() - pre.gen_next() <= 3 * (post.pos() - pre.pos())
    }

    /// The error names the kind and span of the token now under the cursor.
    pub open spec fn err_here(&self, e: ParseError) -> bool {
        e.span == self.cur().span && e.found == self.cur().kind
    }

    /// Consumes a token of the given kind, or fails naming the expected
    /// kind and the token actually found.
    fn expect(&mut self, kind: TokenKind) -> (r: Result<Token, ParseError>)
        requires
            old(self).wf(),
            kind != TokenKind::EndOfFile,
        ensures
            Self::stepped(*old(self), *final(self)),
            final(self).gen_next() == old(self).gen_next(),
            old(self).cur().kind == kind ==> {
                &&& r == Ok::<Token, ParseError>(old(self).cur())
                &&& final(self).pos() == old(self).pos() + 1
            },
            old(self).cur().kind != kind ==> {
                &&& r == Err::<Token, ParseError>(ParseError {
                    span: old(self).cur().span,
                    expected: Expectation::Token(kind),
                    found: old(self).cur().kind,
                })
                &&& *final(self) == *old(self)
            },
    {
        if let Some(token) = self.tokens.consume(kind) {
            Ok(token)
        } else {
            let current = self.tokens.peek();
            Err(ParseError {
                span: current.span,
                expected: Expectation::Token(kind),
                found: current.kind,
            })
        }
    }

    /// Consumes an identifier token and wraps it as an identifier literal
    /// node, or fails naming the token actually found.
    fn expect_identifier(&mut self) -> (r: Result<Literal, ParseError>)
        requires
            old(self).wf(),
        ensures
            Self::stepped(*old(self), *final(self)),
            old(self).cur().kind == TokenKind::Identifier ==> {
                &&& r matches Ok(lit)
                &&& lit.id.spec_id() == old(self).gen_next()
                &&& lit.span == old(self).cur().span
                &&& lit.kind == LiteralKind::Identifier
                &&& ids_of_literal(lit) == int_range(old(self).gen_next(),
                    final(self).gen_next())
                &&& final(self).pos() == old(self).pos() + 1
                &&& final(self).gen_next() == old(self).gen_next() + 1
            },
            old(self).cur().kind != TokenKind::Identifier ==> {
                &&& r == Err::<Literal, ParseError>(ParseError {
                    span: old(self).cur().span,
                    expected: Expectation::Identifier,
                    found: old(self).cur().kind,
                })
                &&& *final(self) == *old(self)
            },
    {
        if let Some(token) = self.tokens.consume(TokenKind::Identifier) {
            let lit = Literal {
                id: self.id_generator.next_id(),
                span: token.span,
                kind: LiteralKind::Identifier,
            };
            proof {
                assert(ids_of_literal(lit) =~= int_range(old(self).gen_next(),
                    self.gen_next()));
            }
            Ok(lit)
        } else {
            let current = self.tokens.peek();
            Err(ParseError {
                span: current.span,
                expected: Expectation::Identifier,
                found: current.kind,
            })
        }
    }

    /// Parses the one primary expression form, an integer literal, or
    /// fails reporting that an expression was expected.
    fn parse_primary_expr(&mut self) -> (r: Result<Expr, ParseError>)
        requires
            old(self).wf(),
        ensures
            Self::stepped(*old(self), *final(self)),
            old(self).cur().kind == TokenKind::Integer ==> {
                &&& r matches Ok(e)
                &&& e.id.spec_id() == old(self).gen_next()
                &&& e.span == old(self).cur().span
                &&& expr_wf(e)
                &&& expr_matches(old(self).toks(), old(self).pos(), old(self).gen_next(), e,
                    final(self).pos(), final(self).gen_next())
                &&& expr_scan(old(self).toks(), old(self).pos(), old(self).gen_next())
                    == Some((final(self).pos(), final(self).gen_next()))
                &&& ids_of_expr(e) == int_range(old(self).gen_next(), final(self).gen_next())
                &&& final(self).pos() == old(self).pos() + 1
                &&& final(self).gen_next() == old(self).gen_next() + 2
            },
            old(self).cur().kind != TokenKind::Integer ==> {
                &&& r == Err::<Expr, ParseError>(ParseError {
                    span: old(self).cur().span,
                    expected: Expectation::Expression,
                    found: old(self).cur().kind,
                })
                &&& *final(self) == *old(self)
            },
    {
        if self.tokens.check(TokenKind::Integer) {
            let token = match self.tokens.consume(TokenKind::Integer) {
                Some(t) => t,
                None => {
                    proof {
                        assert(false);
                    }
                    unreached()
                }
            };
            let e = Expr {
                id: self.id_generator.next_id(),
                span: token.span,
                kind: ExprKind::Literal(Literal {
                    id: self.id_generator.next_id(),
                    span: token.span,
                    kind: LiteralKind::Integer,
                }),
            };
            proof {
                assert(ids_of_expr(e) =~= int_range(old(self).gen_next(), self.gen_next()));
            }
            Ok(e)
        } else {
            let current = self.tokens.peek();
            Err(ParseError {
                span: current.span,
                expected: Expectation::Expression,
                found: current.kind,
            })
        }
    }

    /// Parses an expression; the grammar currently has primary expressions
    /// only.
    fn parse_expr(&mut self) -> (r: Result<Expr, ParseError>)
        requires
            old(self).wf(),
        ensures
            Self::stepped(*old(self), *final(self)),
            old(self).cur().kind == TokenKind::Integer ==> {
                &&& r matches Ok(e)
                &&& e.id.spec_id() == old(self).gen_next()
                &&& e.span == old(self).cur().span
                &&& expr_wf(e)
                &&& expr_matches(old(self).toks(), old(self).pos(), old(self).gen_next(), e,
                    final(self).pos(), final(self).gen_next())
                &&& expr_scan(old(self).toks(), old(self).pos(), old(self).gen_next())
                    == Some((final(self).pos(), final(self).gen_next()))
                &&& ids_of_expr(e) == int_range(old(self).gen_next(), final(self).gen_next())
                &&& final(self).pos() == old(self).pos() + 1
                &&& final(self).gen_next() == old(self).gen_next() + 2
            },
            old(self).cur().kind != TokenKind::Integer ==> {
                &&& r == Err::<Expr, ParseError>(ParseError {
                    span: old(self).cur().span,
                    expected: Expectation::Expression,
                    found: old(self).cur().kind,
                })
                &&& *final(self) == *old(self)
            },
    {
        self.parse_primary_expr()
    }

    /// Parses one item: a let binding when a `let` keyword is consumed,
    /// otherwise a bare expression. The item's span equals its child's.
    fn parse_item(&mut self) -> (r: Result<Item, ParseError>)
        requires
            old(self).wf(),
        ensures
            Self::stepped(*old(self), *final(self)),
            r matches Ok(it) ==> {
                &&& item_wf(it)
                &&& item_matches(old(self).toks(), old(self).pos(), old(self).gen_next(), it,
                    final(self).pos(), final(self).gen_next())
                &&& item_scan(old(self).toks(), old(self).pos(), old(self).gen_next())
                    == Some((final(self).pos(), final(self).gen_next()))
                &&& ids_of_item(it) == int_range(old(self).gen_next(), final(self).gen_next())
                &&& final(self).pos() > old(self).pos()
                &&& final(self).gen_next() > old(self).gen_next()
            },
            r matches Err(e) ==> final(self).err_here(e),
            bad_let_expr_at(old(self).toks(), old(self).pos()) ==>
                r == Err::<Item, ParseError>(expression_error_at(old(self).toks(),
                    old(self).pos() + 3)),
            item_scan(old(self).toks(), old(self).pos(), old(self).gen_next()) is Some
                ==> r is Ok,
        decreases self.toks().len() - self.pos(), 0int,
    {
        if self.tokens.consume(TokenKind::Let).is_some() {
            let ghost g0 = self.gen_next();
            let let_binding = match self.parse_let_binding() {
                Ok(lb) => lb,
                Err(e) => {
                    return Err(e);
                }
            };
            let ghost g1 = self.gen_next();
            let span = let_binding.span;
            let it = Item {
                id: self.id_generator.next_id(),
                span,
                kind: ItemKind::LetBinding(let_binding),
            };
            proof {
                assert(seq![g1] =~= int_range(g1, g1 + 1));
                lemma_int_range_concat(g0, g1, g1 + 1);
                assert(ids_of_item(it) == int_range(old(self).gen_next(),
                    self.gen_next()));
            }
            Ok(it)
        } else {
            let ghost g0 = self.gen_next();
            let expr = match self.parse_expr() {
                Ok(e) => e,
                Err(e) => {
                    return Err(e);
                }
            };
            let ghost g1 = self.gen_next();
            let span = expr.span;
            let it = Item {
                id: self.id_generator.next_id(),
                span,
                kind: ItemKind::Expr(expr),
            };
            proof {
                assert(seq![g1] =~= int_range(g1, g1 + 1));
                lemma_int_range_concat(g0, g1, g1 + 1);
                assert(ids_of_item(it) == int_range(old(self).gen_next(),
                    self.gen_next()));
            }
            Ok(it)
        }
    }

    /// Parses the rest of a let binding after its `let` keyword: the bound
    /// identifier, an `=`, and the body. The binding's span runs from the
    /// keyword's start through the end of the last consumed token.
    fn parse_let_binding(&mut self) -> (r: Result<LetBinding, ParseError>)
        requires
            old(self).wf(),
            old(self).pos() >= 1,
        ensures
            Self::stepped(*old(self), *final(self)),
            r matches Ok(lb) ==> {
                &&& let_binding_wf(lb)
                &&& let_binding_matches(old(self).toks(), old(self).pos(),
                    old(self).gen_next(), lb, final(self).pos(), final(self).gen_next())
                &&& let_binding_scan(old(self).toks(), old(self).pos(), old(self).gen_next())
                    == Some((final(self).pos(), final(self).gen_next()))
                &&& ids_of_let_binding(lb) == int_range(old(self).gen_next(),
                    final(self).gen_next())
                &&& final(self).pos() > old(self).pos()
                &&& final(self).gen_next() > old(self).gen_next()
                &&& lb.span.start == old(self).toks()[old(self).pos() - 1].span.start
                &&& lb.span.end == old(self).toks()[final(self).pos() - 1].span.end
                &&& lb.identifier.span == old(self).cur().span
            },
            r matches Err(e) ==> final(self).err_here(e),
            ({
                let ts = old(self).toks();
                let p = old(self).pos();
                &&& p + 2 < ts.len()
                &&& ts[p].kind == TokenKind::Identifier
                &&& ts[p + 1].kind == TokenKind::Equal
                &&& ts[p + 2].kind != TokenKind::Indent
                &&& ts[p + 2].kind != TokenKind::Integer
            }) ==> r == Err::<LetBinding, ParseError>(expression_error_at(old(self).toks(),
                old(self).pos() + 2)),
            let_binding_scan(old(self).toks(), old(self).pos(), old(self).gen_next()) is Some
                ==> r is Ok,
        decreases self.toks().len() - self.pos(), 0int,
    {
        let start = self.tokens.previous().span.start;
        let ghost g0 = self.gen_next();
        let identifier = match self.expect_identifier() {
            Ok(lit) => lit,
            Err(e) => {
                return Err(e);
            }
        };
        match self.expect(TokenKind::Equal) {
            Ok(_) => {}
            Err(e) => {
                return Err(e);
            }
        }
        let body = match self.parse_let_binding_body() {
            Ok(b) => b,
            Err(e) => {
                return Err(e);
            }
        };
        let ghost g1 = self.gen_next();
        let end = self.tokens.previous().span.end;
        proof {
            let ts = old(self).toks();
            let p0 = old(self).pos();
            let fp = self.pos();
            assert(ts[p0 - 1].span.start <= ts[fp - 1].span.start);
            assert(ts[fp - 1].span.start <= ts[fp - 1].span.end);
        }
        let span = SourceSpan::new(start, end);
        let lb = LetBinding {
            id: self.id_generator.next_id(),
            span,
            identifier,
            body,
        };
        proof {
            lemma_int_range_concat(g0, g0 + 1, g1);
            assert(seq![g1] =~= int_range(g1, g1 + 1));
            lemma_int_range_concat(g0, g1, g1 + 1);
            assert(ids_of_let_binding(lb) == int_range(old(self).gen_next(),
                self.gen_next()));
        }
        Ok(lb)
    }

    /// Parses a binding's body: a nested block when the cursor sees an
    /// Indent, otherwise a single expression followed by a NewLine.
    fn parse_let_binding_body(&mut self) -> (r: Result<LetBody, ParseError>)
        requires
            old(self).wf(),
        ensures
            Self::stepped(*old(self), *final(self)),
            r matches Ok(b) ==> {
                &&& body_wf(b)
                &&& body_matches(old(self).toks(), old(self).pos(), old(self).gen_next(), b,
                    final(self).pos(), final(self).gen_next())
                &&& body_scan(old(self).toks(), old(self).pos(), old(self).gen_next())
                    == Some((final(self).pos(), final(self).gen_next()))
                &&& ids_of_body(b) == int_range(old(self).gen_next(), final(self).gen_next())
                &&& final(self).pos() > old(self).pos()
                &&& final(self).gen_next() > old(self).gen_next()
            },
            r matches Err(e) ==> final(self).err_here(e),
            (old(self).cur().kind != TokenKind::Indent
                && old(self).cur().kind != TokenKind::Integer) ==> {
                &&& r == Err::<LetBody, ParseError>(expression_error_at(old(self).toks(),
                    old(self).pos()))
                &&& *final(self) == *old(self)
            },
            body_scan(old(self).toks(), old(self).pos(), old(self).gen_next()) is Some
                ==> r is Ok,
            ({
                let ts = old(self).toks();
                let p = old(self).pos();
                &&& p + 1 < ts.len()
                &&& ts[p].kind == TokenKind::Integer
                &&& ts[p + 1].kind != TokenKind::NewLine
            }) ==> r == Err::<LetBody, ParseError>(ParseError {
                span: old(self).toks()[old(self).pos() + 1].span,
                expected: Expectation::Token(TokenKind::NewLine),
                found: old(self).toks()[old(self).pos() + 1].kind,
            }),
        decreases self.toks().len() - self.pos(), 1int,
    {
        if self.tokens.check(TokenKind::Indent) {
            match self.parse_block() {
                Ok(block) => Ok(LetBody::Block(block)),
                Err(e) => Err(e),
            }
        } else {
            let expr = match self.parse_expr() {
                Ok(e) => e,
                Err(e) => {
                    return Err(e);
                }
            };
            match self.expect(TokenKind::NewLine) {
                Ok(_) => {}
                Err(e) => {
                    return Err(e);
                }
            }
            Ok(LetBody::Expr(expr))
        }
    }

    /// Parses a block: an Indent, items until a Dedent or the end of the
    /// stream, and optionally the Dedent (a missing Dedent at end of
    /// stream is tolerated). The block's span runs from the Indent's start
    /// to the end of the last consumed token.
    fn parse_block(&mut self) -> (r: Result<Block, ParseError>)
        requires
            old(self).wf(),
        ensures
            Self::stepped(*old(self), *final(self)),
            r matches Ok(b) ==> {
                &&& block_wf(b)
                &&& block_matches(old(self).toks(), old(self).pos(), old(self).gen_next(), b,
                    final(self).pos(), final(self).gen_next())
                &&& block_scan(old(self).toks(), old(self).pos(), old(self).gen_next())
                    == Some((final(self).pos(), final(self).gen_next()))
                &&& ids_of_block(b) == int_range(old(self).gen_next(), final(self).gen_next())
                &&& final(self).pos() > old(self).pos()
                &&& final(self).gen_next() > old(self).gen_next()
                &&& b.span.start == old(self).cur().span.start
            },
            r matches Err(e) ==> final(self).err_here(e),
            old(self).cur().kind != TokenKind::Indent ==> {
                &&& r == Err::<Block, ParseError>(ParseError {
                    span: old(self).cur().span,
                    expected: Expectation::Token(TokenKind::Indent),
                    found: old(self).cur().kind,
                })
                &&& *final(self) == *old(self)
            },
            block_scan(old(self).toks(), old(self).pos(), old(self).gen_next()) is Some
                ==> r is Ok,
        decreases self.toks().len() - self.pos(), 0int,
    {
        let start = match self.expect(TokenKind::Indent) {
            Ok(t) => t.span.start,
            Err(e) => {
                return Err(e);
            }
        };
        let ghost g1 = self.gen_next();
        let ghost q0 = self.pos();
        let mut items: Vec<Item> = Vec::new();
        proof {
            assert(ids_of_items(items@) =~= int_range(g1, g1));
        }
        while !self.tokens.at_end() && !self.tokens.check(TokenKind::Dedent)
            invariant
                self.wf(),
                self.toks() == old(self).toks(),
                old(self).pos() + 1 <= self.pos(),
                q0 == old(self).pos() + 1,
                old(self).toks()[old(self).pos()].kind == TokenKind::Indent,
                g1 == old(self).gen_next(),
                g1 <= self.gen_next(),
                ids_of_items(items@) == int_range(g1, self.gen_next()),
                items_match(self.toks(), q0, g1, items@, self.pos(), self.gen_next()),
                items_scan(self.toks(), q0, g1)
                    == items_scan(self.toks(), self.pos(), self.gen_next()),
                forall|k: int| 0 <= k < items@.len() ==> item_wf(#[trigger] items@[k]),
                self.gen_next() - old(self).gen_next()
                    <= 3 * (self.pos() - old(self).pos()) - 1,
            decreases self.toks().len() - self.pos(),
        {
            let ghost ga = self.gen_next();
            let ghost pa = self.pos();
            let item = match self.parse_item() {
                Ok(it) => it,
                Err(e) => {
                    proof {
                        if block_scan(old(self).toks(), old(self).pos(),
                            old(self).gen_next()) is Some {
                            assert(items_scan(self.toks(), q0, g1) is Some);
                            assert(items_scan(self.toks(), pa, ga) is Some);
                            assert(item_scan(self.toks(), pa, ga) is None);
                            assert(false);
                        }
                    }
                    return Err(e);
                }
            };
            let ghost pre_items = items@;
            items.push(item);
            proof {
                lemma_ids_of_items_push(pre_items, item);
                assert(items@ == pre_items.push(item));
                lemma_int_range_concat(g1, ga, self.gen_next());
                lemma_items_match_push(self.toks(), q0, g1, pre_items, pa, ga, item,
                    self.pos(), self.gen_next());
                assert(items_scan(self.toks(), pa, ga)
                    == items_scan(self.toks(), self.pos(), self.gen_next()));
            }
        }
        let ghost pe = self.pos();
        let ghost ge = self.gen_next();
        proof {
            assert(items_scan(self.toks(), pe, ge) == Some((pe, ge)));
        }
        let consumed_dedent = self.tokens.consume(TokenKind::Dedent);
        let end = self.tokens.previous().span.end;
        proof {
            let ts = old(self).toks();
            let p0 = old(self).pos();
            let fp = self.pos();
            assert(ts[p0].span.start <= ts[fp - 1].span.start);
            assert(ts[fp - 1].span.start <= ts[fp - 1].span.end);
        }
        let span = SourceSpan::new(start, end);
        let ghost g2 = self.gen_next();
        let b = Block {
            id: self.id_generator.next_id(),
            span,
            items,
        };
        proof {
            assert(seq![g2] =~= int_range(g2, g2 + 1));
            lemma_int_range_concat(g1, g2, g2 + 1);
            assert(ids_of_block(b) == int_range(old(self).gen_next(), self.gen_next()));
            if consumed_dedent is Some {
                assert(old(self).toks()[self.pos() - 1].kind == TokenKind::Dedent);
            } else {
                assert(self.pos() == pe && old(self).toks()[pe].kind == TokenKind::EndOfFile);
            }
            assert(block_matches(old(self).toks(), old(self).pos(), old(self).gen_next(), b,
                self.pos(), self.gen_next()));
            assert(block_scan(old(self).toks(), old(self).pos(), old(self).gen_next())
                == Some((self.pos(), self.gen_next())));
        }
        Ok(b)
    }

    /// Parses a whole program: items until EndOfFile, then the Program
    /// node, whose id is allocated last.
    fn parse_program(&mut self) -> (r: Result<Program, ParseError>)
        requires
            old(self).wf(),
        ensures
            final(self).toks() == old(self).toks(),
            old(self).pos() <= final(self).pos() < final(self).toks().len(),
            old(self).gen_next() <= final(self).gen_next(),
            r matches Ok(p) ==> {
                &&& program_wf(p)
                &&& program_matches(old(self).toks(), old(self).pos(), old(self).gen_next(),
                    p, final(self).pos(), final(self).gen_next())
                &&& ids_of_program(p) == int_range(old(self).gen_next(),
                    final(self).gen_next())
                &&& final(self).cur().kind == TokenKind::EndOfFile
            },
            r matches Err(e) ==> final(self).err_here(e),
            bad_let_expr_at(old(self).toks(), old(self).pos()) ==>
                r == Err::<Program, ParseError>(expression_error_at(old(self).toks(),
                    old(self).pos() + 3)),
            ({
                let scanned = items_scan(old(self).toks(), old(self).pos(),
                    old(self).gen_next());
                scanned matches Some(e) && old(self).toks()[e.0].kind == TokenKind::EndOfFile
            }) ==> r is Ok,
    {
        let ghost g0 = self.gen_next();
        let mut body: Vec<Item> = Vec::new();
        proof {
            assert(ids_of_items(body@) =~= int_range(g0, g0));
        }
        while !self.tokens.at_end()
            invariant
                self.wf(),
                self.toks() == old(self).toks(),
                old(self).pos() <= self.pos(),
                g0 == old(self).gen_next(),
                g0 <= self.gen_next(),
                ids_of_items(body@) == int_range(g0, self.gen_next()),
                items_match(self.toks(), old(self).pos(), g0, body@, self.pos(),
                    self.gen_next()),
                items_scan(self.toks(), old(self).pos(), g0)
                    == items_scan(self.toks(), self.pos(), self.gen_next()),
                bad_let_expr_at(self.toks(), old(self).pos()) ==> self.pos() == old(self).pos(),
                forall|k: int| 0 <= k < body@.len() ==> item_wf(#[trigger] body@[k]),
                self.gen_next() - old(self).gen_next()
                    <= 3 * (self.pos() - old(self).pos()),
            decreases self.toks().len() - self.pos(),
        {
            let ghost ga = self.gen_next();
            let ghost pa = self.pos();
            let item = match self.parse_item() {
                Ok(it) => it,
                Err(e) => {
                    proof {
                        let scanned = items_scan(self.toks(), old(self).pos(), g0);
                        if scanned matches Some(se)
                            && self.toks()[se.0].kind == TokenKind::EndOfFile {
                            assert(items_scan(self.toks(), pa, ga) == scanned);
                            if self.toks()[pa as int].kind == TokenKind::Dedent {
                                assert(scanned == Some((pa as int, ga)));
                                assert(false);
                            } else {
                                assert(item_scan(self.toks(), pa, ga) is None);
                                assert(items_scan(self.toks(), pa, ga) is None);
                                assert(false);
                            }
                        }
                    }
                    return Err(e);
                }
            };
            let ghost pre_items = body@;
            body.push(item);
            proof {
                lemma_ids_of_items_push(pre_items, item);
                assert(body@ == pre_items.push(item));
                lemma_int_range_concat(g0, ga, self.gen_next());
                lemma_items_match_push(self.toks(), old(self).pos(), g0, pre_items, pa, ga,
                    item, self.pos(), self.gen_next());
            }
        }
        let ghost g2 = self.gen_next();
        let p = Program {
            id: self.id_generator.next_id(),
            body,
        };
        proof {
            assert(seq![g2] =~= int_range(g2, g2 + 1));
            lemma_int_range_concat(g0, g2, g2 + 1);
            assert(ids_of_program(p) == int_range(old(self).gen_next(), self.gen_next()));
        }
        Ok(p)
    }

    /// Parses the lexed stream into a Program. A successful parse is
    /// pinned completely by `program_matches`: which items the program
    /// holds, every node's kind and span, and every node's id. Ids come
    /// from a fresh generator, so they are exactly `0, 1, ..., n - 1` in
    /// allocation order: strictly increasing from zero, with no gaps and
    /// no repeats. Success is owed exactly where the scanners accept the
    /// stream; the first structural error ends the parse, an error always
    /// names a token of the stream, and on a binding whose body starts
    /// with a token that can begin no expression the error is pinned
    /// exactly. The bound on the stream's length keeps the id space
    /// sufficient: at most three ids are allocated per consumed token,
    /// plus one root id.
    pub fn parse(session: &ParseSession, tokens: Tokens) -> (r: Result<Program, ParseError>)
        requires
            tokens.wf(),
            3 * (tokens.toks().len() - 1 - tokens.pos()) + 1 <= usize::MAX,
        ensures
            r matches Ok(p) ==> {
                &&& program_wf(p)
                &&& ids_of_program(p) == int_range(0, ids_of_program(p).len() as int)
                &&& exists|p2: int, g2: int| #[trigger] program_matches(tokens.toks(),
                    tokens.pos(), 0, p, p2, g2)
            },
            r matches Err(e) ==> exists|k: int| 0 <= k < tokens.toks().len()
                && (#[trigger] tokens.toks()[k]).kind == e.found
                && tokens.toks()[k].span == e.span,
            bad_let_expr_at(tokens.toks(), tokens.pos()) ==>
                r == Err::<Program, ParseError>(expression_error_at(tokens.toks(),
                    tokens.pos() + 3)),
            ({
                let scanned = items_scan(tokens.toks(), tokens.pos(), 0);
                scanned matches Some(e) && tokens.toks()[e.0].kind == TokenKind::EndOfFile
            }) ==> r is Ok,
    {
        let mut parser = Parser {
            tokens,
            id_generator: NodeIdGenerator::new(),
        };
        let r = parser.parse_program();
        proof {
            if r is Ok {
                let p = r->Ok_0;
                assert(program_matches(tokens.toks(), tokens.pos(), 0, p, parser.pos(),
                    parser.gen_next()));
                assert(ids_of_program(p) == int_range(0, parser.gen_next()));
                assert(ids_of_program(p).len() == parser.gen_next());
            }
            if r is Err {
                let e = r->Err_0;
                assert(parser.toks()[parser.pos()].kind == e.found
                    && parser.toks()[parser.pos()].span == e.span);
            }
        }
        r
    }
}

} // verus!
