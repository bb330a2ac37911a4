//! The typed tree the parser produces. Every node owns a NodeId and a
//! source span; children are owned by value, so the tree has no sharing
//! and no back-references.

use vstd::prelude::*;
use crate::node_id::NodeId;
use crate::source_file::SourceSpan;

verus! {

#[derive(Debug)]
pub struct Program {
    pub id: NodeId,
    pub body: Vec<Item>,
}

#[derive(Debug)]
pub struct Block {
    pub id: NodeId,
    pub span: SourceSpan,
    pub items: Vec<Item>,
}

#[derive(Debug)]
pub struct Item {
    pub id: NodeId,
    pub span: SourceSpan,
    pub kind: ItemKind,
}

#[derive(Debug)]
pub enum ItemKind {
    LetBinding(LetBinding),
    Expr(Expr),
}

#[derive(Debug)]
pub struct LetBinding {
    pub id: NodeId,
    pub span: SourceSpan,
    pub identifier: Literal,
    pub body: LetBody,
}

#[derive(Debug)]
pub enum LetBody {
    Block(Block),
    Expr(Expr),
}

#[derive(Debug)]
pub struct Expr {
    pub id: NodeId,
    pub span: SourceSpan,
    pub kind: ExprKind,
}

#[derive(Debug)]
pub enum ExprKind {
    Literal(Literal),
}

#[derive(Debug)]
pub struct Literal {
    pub id: NodeId,
    pub span: SourceSpan,
    pub kind: LiteralKind,
}

#[derive(Copy, Clone, Debug, PartialEq, Eq, Structural)]
pub enum LiteralKind {
    Identifier,
    Integer,
}

/// The integers `a, a + 1, ..., b - 1`, in order.
pub open spec fn int_range(a: int, b: int) -> Seq<int> {
    Seq::new((b - a) as nat, |i: int| a + i)
}

// The ids owned by a subtree, listed in the order the parser allocates
// them. An expression's own id is allocated before its literal's; every
// other node's id is allocated after its children's.

pub open spec fn ids_of_literal(l: Literal) -> Seq<int> {
    seq![l.id.spec_id()]
}

pub open spec fn ids_of_expr(e: Expr) -> Seq<int>
    decreases e,
{
    match e.kind {
        ExprKind::Literal(l) => seq![e.id.spec_id()] + ids_of_literal(l),
    }
}

pub open spec fn ids_of_body(b: LetBody) -> Seq<int>
    decreases b,
{
    match b {
        LetBody::Block(bl) => ids_of_block(bl),
        LetBody::Expr(e) => ids_of_expr(e),
    }
}

pub open spec fn ids_of_let_binding(lb: LetBinding) -> Seq<int>
    decreases lb,
{
    ids_of_literal(lb.identifier) + ids_of_body(lb.body) + seq![lb.id.spec_id()]
}

pub open spec fn ids_of_item(it: Item) -> Seq<int>
    decreases it,
{
    (match it.kind {
        ItemKind::LetBinding(lb) => ids_of_let_binding(lb),
        ItemKind::Expr(e) => ids_of_expr(e),
    }) + seq![it.id.spec_id()]
}

pub open spec fn ids_of_items(items: Seq<Item>) -> Seq<int>
    decreases items,
{
    if items.len() == 0 {
        Seq::empty()
    } else {
        ids_of_items(items.subrange(0, items.len() - 1))
            + ids_of_item(items[items.len() - 1])
    }
}

pub open spec fn ids_of_block(b: Block) -> Seq<int>
    decreases b,
{
    ids_of_items(b.items@) + seq![b.id.spec_id()]
}

pub open spec fn ids_of_program(p: Program) -> Seq<int>
    decreases p,
{
    ids_of_items(p.body@) + seq![p.id.spec_id()]
}

// Structural well-formedness of parsed trees: spans are ordered, an item's
// span equals its child's, an expression literal shares the expression's
// span and is an integer, and a binding's identifier is an identifier
// literal.

pub open spec fn expr_wf(e: Expr) -> bool
    decreases e,
{
    &&& e.span.start <= e.span.end
    &&& match e.kind {
        ExprKind::Literal(l) => l.span == e.span && l.kind == LiteralKind::Integer,
    }
}

pub open spec fn body_wf(b: LetBody) -> bool
    decreases b,
{
    match b {
        LetBody::Block(bl) => block_wf(bl),
        LetBody::Expr(e) => expr_wf(e),
    }
}

pub open spec fn let_binding_wf(lb: LetBinding) -> bool
    decreases lb,
{
    &&& lb.span.start <= lb.span.end
    &&& lb.identifier.kind == LiteralKind::Identifier
    &&& lb.identifier.span.start <= lb.identifier.span.end
    &&& body_wf(lb.body)
}

pub open spec fn item_wf(it: Item) -> bool
    decreases it,
{
    match it.kind {
        ItemKind::LetBinding(lb) => it.span == lb.span && let_binding_wf(lb),
        ItemKind::Expr(e) => it.span == e.span && expr_wf(e),
    }
}

pub open spec fn items_wf(items: Seq<Item>) -> bool
    decreases items,
{
    forall|k: int| 0 <= k < items.len() ==> item_wf(#[trigger] items[k])
}

pub open spec fn block_wf(b: Block) -> bool
    decreases b,
{
    &&& b.span.start <= b.span.end
    &&& items_wf(b.items@)
}

pub open spec fn program_wf(p: Program) -> bool {
    items_wf(p.body@)
}

/// Appending an item extends the id sequence by the item's ids.
pub proof fn lemma_ids_of_items_push(items: Seq<Item>, it: Item)
    ensures
        ids_of_items(items.push(it)) == ids_of_items(items) + ids_of_item(it),
{
    let p = items.push(it);
    assert(p.subrange(0, p.len() - 1) =~= items);
    assert(p[p.len() - 1] == it);
}

/// Adjacent id ranges concatenate.
pub proof fn lemma_int_range_concat(a: int, b: int, c: int)
    requires
        a <= b <= c,
    ensures
        int_range(a, b) + int_range(b, c) =~= int_range(a, c),
{
}

} // verus!
