use brinkc::ast::{Expr, ExprKind, Item, ItemKind, LetBinding, LetBody, LiteralKind, Program};
use brinkc::lexer::Lexer;
use brinkc::parse_session::ParseSession;
use brinkc::parser::{Expectation, ParseError, Parser};
use brinkc::source_file::{IndentKind, SourceFile};
use brinkc::token::TokenKind;
use brinkc::tokens::Tokens;

fn session_for(text: &str) -> ParseSession {
    ParseSession::new(SourceFile {
        file_path: String::from("main.brink"),
        source_code: String::from(text),
        indent_kind: IndentKind::Spaces(2),
    })
}

fn parse_text(text: &str) -> Result<Program, ParseError> {
    let tokens = Lexer::tokenize_source_code(text, IndentKind::Spaces(2));
    let session = session_for(text);
    Parser::parse(&session, Tokens::new(tokens))
}

fn collect_ids_item(item: &Item, out: &mut Vec<usize>) {
    match &item.kind {
        ItemKind::LetBinding(lb) => collect_ids_let_binding(lb, out),
        ItemKind::Expr(e) => collect_ids_expr(e, out),
    }
    out.push(item.id.as_usize());
}

fn collect_ids_expr(expr: &Expr, out: &mut Vec<usize>) {
    out.push(expr.id.as_usize());
    match &expr.kind {
        ExprKind::Literal(l) => out.push(l.id.as_usize()),
    }
}

fn collect_ids_let_binding(lb: &LetBinding, out: &mut Vec<usize>) {
    out.push(lb.identifier.id.as_usize());
    match &lb.body {
        LetBody::Block(block) => {
            for item in &block.items {
                collect_ids_item(item, out);
            }
            out.push(block.id.as_usize());
        }
        LetBody::Expr(e) => collect_ids_expr(e, out),
    }
    out.push(lb.id.as_usize());
}

fn collect_ids(program: &Program) -> Vec<usize> {
    let mut out = Vec::new();
    for item in &program.body {
        collect_ids_item(item, &mut out);
    }
    out.push(program.id.as_usize());
    out
}

#[test]
fn parses_flat_let_binding() {
    // "let x = 5\n" is one LetBinding item whose identifier covers "x" and
    // whose body is an integer expression covering "5".
    let program = parse_text("let x = 5\n").unwrap();
    assert_eq!(1, program.body.len());
    match &program.body[0].kind {
        ItemKind::LetBinding(lb) => {
            assert_eq!(LiteralKind::Identifier, lb.identifier.kind);
            assert_eq!(4, lb.identifier.span.start);
            assert_eq!(5, lb.identifier.span.end);
            match &lb.body {
                LetBody::Expr(e) => {
                    assert_eq!(8, e.span.start);
                    assert_eq!(9, e.span.end);
                    match &e.kind {
                        ExprKind::Literal(l) => {
                            assert_eq!(LiteralKind::Integer, l.kind);
                            assert_eq!(8, l.span.start);
                            assert_eq!(9, l.span.end);
                        }
                    }
                }
                LetBody::Block(_) => panic!("expected an expression body"),
            }
        }
        ItemKind::Expr(_) => panic!("expected a let binding"),
    }
}

#[test]
fn parses_block_body() {
    // "let x =\n  5\n": the body is a nested block with one integer item,
    // and the block's span starts at the Indent position.
    let program = parse_text("let x =\n  5\n").unwrap();
    assert_eq!(1, program.body.len());
    match &program.body[0].kind {
        ItemKind::LetBinding(lb) => match &lb.body {
            LetBody::Block(block) => {
                assert_eq!(7, block.span.start);
                assert_eq!(1, block.items.len());
                match &block.items[0].kind {
                    ItemKind::Expr(e) => {
                        assert_eq!(10, e.span.start);
                        assert_eq!(11, e.span.end);
                        match &e.kind {
                            ExprKind::Literal(l) => {
                                assert_eq!(LiteralKind::Integer, l.kind)
                            }
                        }
                    }
                    ItemKind::LetBinding(_) => panic!("expected an expression item"),
                }
            }
            LetBody::Expr(_) => panic!("expected a block body"),
        },
        ItemKind::Expr(_) => panic!("expected a let binding"),
    }
}

#[test]
fn reports_expression_expected() {
    // "let x = let\n" fails: an expression was expected, but a let keyword
    // was found, at that token's span.
    let err = parse_text("let x = let\n").unwrap_err();
    assert_eq!(Expectation::Expression, err.expected);
    assert_eq!(TokenKind::Let, err.found);
    assert_eq!(8, err.span.start);
    assert_eq!(11, err.span.end);
}

#[test]
fn reports_expected_token_kind() {
    // Missing "=": the error names the expected kind and the found kind.
    let err = parse_text("let x 5\n").unwrap_err();
    assert_eq!(Expectation::Token(TokenKind::Equal), err.expected);
    assert_eq!(TokenKind::Integer, err.found);
    assert_eq!(6, err.span.start);
    assert_eq!(7, err.span.end);
}

#[test]
fn reports_expected_identifier() {
    let err = parse_text("let = 5\n").unwrap_err();
    assert_eq!(Expectation::Identifier, err.expected);
    assert_eq!(TokenKind::Equal, err.found);
    assert_eq!(4, err.span.start);
    assert_eq!(5, err.span.end);
}

#[test]
fn node_ids_count_up_from_zero() {
    // Within one parse, ids in allocation order are exactly 0, 1, ..., n-1:
    // strictly increasing from zero, no gaps, no repeats.
    let text = "let x = 5\nlet y =\n  7\n";
    let first = parse_text(text).unwrap();
    let ids = collect_ids(&first);
    for (expected, id) in ids.iter().enumerate() {
        assert_eq!(expected, *id);
    }
    // A second, independent session starts over from zero and allocates the
    // same id sequence.
    let second = parse_text(text).unwrap();
    assert_eq!(ids, collect_ids(&second));
}

#[test]
fn parses_empty_program() {
    let program = parse_text("").unwrap();
    assert_eq!(0, program.body.len());
    assert_eq!(0, program.id.as_usize());
}

#[test]
fn parses_bare_integer_item() {
    let program = parse_text("5").unwrap();
    assert_eq!(1, program.body.len());
    match &program.body[0].kind {
        ItemKind::Expr(e) => {
            assert_eq!(0, e.span.start);
            assert_eq!(1, e.span.end);
        }
        ItemKind::LetBinding(_) => panic!("expected an expression item"),
    }
}

#[test]
fn let_binding_span_covers_keyword_to_body() {
    let program = parse_text("let x = 5\n").unwrap();
    let item = &program.body[0];
    match &item.kind {
        ItemKind::LetBinding(lb) => {
            // From the keyword's start through the consumed NewLine.
            assert_eq!(0, lb.span.start);
            assert_eq!(10, lb.span.end);
            assert_eq!(lb.span, item.span);
        }
        ItemKind::Expr(_) => panic!("expected a let binding"),
    }
}

#[test]
fn missing_dedent_is_tolerated_at_end() {
    // The nested block ends with the stream; no Dedent token is required.
    let program = parse_text("let x =\n  5").unwrap();
    match &program.body[0].kind {
        ItemKind::LetBinding(lb) => match &lb.body {
            LetBody::Block(block) => {
                assert_eq!(1, block.items.len());
            }
            LetBody::Expr(_) => panic!("expected a block body"),
        },
        ItemKind::Expr(_) => panic!("expected a let binding"),
    }
}

#[test]
fn nested_let_inside_block() {
    let program = parse_text("let a =\n  let b = 1\n  2\n").unwrap();
    assert_eq!(1, program.body.len());
    match &program.body[0].kind {
        ItemKind::LetBinding(outer) => match &outer.body {
            LetBody::Block(block) => {
                assert_eq!(2, block.items.len());
                assert!(matches!(block.items[0].kind, ItemKind::LetBinding(_)));
                assert!(matches!(block.items[1].kind, ItemKind::Expr(_)));
            }
            LetBody::Expr(_) => panic!("expected a block body"),
        },
        ItemKind::Expr(_) => panic!("expected a let binding"),
    }
}

#[test]
fn reports_expected_newline_after_expression_body() {
    // A second integer where the trailing NewLine belongs.
    let err = parse_text("let x = 5 6\n").unwrap_err();
    assert_eq!(Expectation::Token(TokenKind::NewLine), err.expected);
    assert_eq!(TokenKind::Integer, err.found);
    assert_eq!(10, err.span.start);
    assert_eq!(11, err.span.end);
}
