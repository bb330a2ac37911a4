use brinkc::lexer::Lexer;
use brinkc::source_file::{IndentKind, SourceFile};
use brinkc::token::TokenKind;

#[test]
fn ignores_whitespace() {
    // The lexer ignores all starting whitespaces on the first line of source code.
    let input = "   \t\t\r\r  \t";
    let result = Lexer::tokenize_source_code(input, IndentKind::Tab);

    assert_eq!(1, result.len());
    assert_eq!(TokenKind::EndOfFile, result[0].kind);
}

#[test]
fn tokenizes_newline_using_spaces() {
    let input = "\n  \n  \n";
    let result = Lexer::tokenize_source_code(input, IndentKind::Spaces(2))[1];

    assert_eq!(TokenKind::NewLine, result.kind);
}

#[test]
fn tokenizes_indent_using_spaces() {
    let input = "\n  \n";
    let result = Lexer::tokenize_source_code(input, IndentKind::Spaces(2))[0];

    assert_eq!(TokenKind::Indent, result.kind);
}

#[test]
fn tokenizes_double_indent_using_spaces() {
    let input = "\n    \n";
    let result = Lexer::tokenize_source_code(input, IndentKind::Spaces(2));

    assert_eq!(TokenKind::Indent, result[0].kind);
    assert_eq!(TokenKind::Indent, result[1].kind);
}

#[test]
fn tokenizes_dedent_using_spaces() {
    let input = "\n  \n\n";
    let result = Lexer::tokenize_source_code(input, IndentKind::Spaces(2))[1];

    assert_eq!(TokenKind::Dedent, result.kind);
}

#[test]
fn tokenizes_double_dedent_using_spaces() {
    let input = "\n    \n\n";
    let result = Lexer::tokenize_source_code(input, IndentKind::Spaces(2));

    assert_eq!(TokenKind::Dedent, result[2].kind);
    assert_eq!(TokenKind::Dedent, result[3].kind);
}

#[test]
fn tokenizes_newline_using_tabs() {
    let input = "\n\t\n\t\n";
    let result = Lexer::tokenize_source_code(input, IndentKind::Tab)[1];

    assert_eq!(TokenKind::NewLine, result.kind);
}

#[test]
fn tokenizes_indent_using_tabs() {
    let input = "\n\t\n";
    let result = Lexer::tokenize_source_code(input, IndentKind::Tab)[0];

    assert_eq!(TokenKind::Indent, result.kind);
}

#[test]
fn tokenizes_double_indent_using_tabs() {
    let input = "\n\t\t\n";
    let result = Lexer::tokenize_source_code(input, IndentKind::Tab);

    assert_eq!(TokenKind::Indent, result[0].kind);
    assert_eq!(TokenKind::Indent, result[1].kind);
}

#[test]
fn tokenizes_dedent_using_tabs() {
    let input = "\n\t\n\n";
    let result = Lexer::tokenize_source_code(input, IndentKind::Tab)[1];

    assert_eq!(TokenKind::Dedent, result.kind);
}

#[test]
fn tokenizes_double_dedent_using_tabs() {
    let input = "\n\t\t\n\n";
    let result = Lexer::tokenize_source_code(input, IndentKind::Tab);

    assert_eq!(TokenKind::Dedent, result[2].kind);
    assert_eq!(TokenKind::Dedent, result[3].kind);
}

#[test]
fn tokenizes_mixed_indentation_tabs_when_expected_spaces() {
    let input = "\n\t\n";
    let result = Lexer::tokenize_source_code(input, IndentKind::Spaces(2))[1];

    assert_eq!(TokenKind::MixedIndentation, result.kind);
}

#[test]
fn tokenizes_mixed_indentation_spaces_when_expected_tabs() {
    let input = "\n  \n";
    let result = Lexer::tokenize_source_code(input, IndentKind::Tab)[1];

    assert_eq!(TokenKind::MixedIndentation, result.kind);
}

#[test]
fn tokenizes_invalid_indentation() {
    let input = "\n   \n";
    let result = Lexer::tokenize_source_code(input, IndentKind::Spaces(2))[1];

    assert_eq!(TokenKind::InvalidIndentation, result.kind);
}

#[test]
fn tokenizes_integer() {
    let input = "1234";
    let result = Lexer::tokenize_source_code(input, IndentKind::Tab)[0];

    assert_eq!(TokenKind::Integer, result.kind);
    assert_eq!(input.len(), result.span.len());
}

#[test]
fn tokenizes_short_operator() {
    let input = "=";
    let result = Lexer::tokenize_source_code(input, IndentKind::Tab)[0];

    assert_eq!(TokenKind::Equal, result.kind)
}

#[test]
fn tokenizes_invalid() {
    let input = "@";
    let result = Lexer::tokenize_source_code(input, IndentKind::Tab)[0];

    assert_eq!(TokenKind::Invalid, result.kind);
}

#[test]
fn invalid_indentation_span_covers_remainder() {
    // Three spaces under a two-space convention: one trailing remainder space.
    let input = "\n   \n";
    let result = Lexer::tokenize_source_code(input, IndentKind::Spaces(2))[1];

    assert_eq!(TokenKind::InvalidIndentation, result.kind);
    assert_eq!(1, result.span.len());
}

#[test]
fn unchanged_indentation_is_newline_not_indent() {
    // Second physical line keeps the same width, so a NewLine is emitted.
    let input = "\n  \n  \n";
    let result = Lexer::tokenize_source_code(input, IndentKind::Spaces(2));

    assert_eq!(TokenKind::Indent, result[0].kind);
    assert_eq!(TokenKind::NewLine, result[1].kind);
    assert_eq!(TokenKind::Dedent, result[2].kind);
    assert_eq!(TokenKind::EndOfFile, result[3].kind);
    assert_eq!(4, result.len());
}

#[test]
fn stream_always_ends_with_end_of_file() {
    let result = Lexer::tokenize_source_code("let x = 5\n", IndentKind::Spaces(2));
    assert_eq!(TokenKind::EndOfFile, result[result.len() - 1].kind);
    let empty = Lexer::tokenize_source_code("", IndentKind::Tab);
    assert_eq!(1, empty.len());
    assert_eq!(TokenKind::EndOfFile, empty[0].kind);
    assert_eq!(0, empty[0].span.len());
}

#[test]
fn keyword_and_identifier_tokens() {
    let result = Lexer::tokenize_source_code("let letter let1", IndentKind::Tab);
    assert_eq!(TokenKind::Let, result[0].kind);
    assert_eq!(TokenKind::Identifier, result[1].kind);
    assert_eq!(TokenKind::Identifier, result[2].kind);
    assert_eq!(TokenKind::EndOfFile, result[3].kind);
}

#[test]
fn keyword_table_knows_only_let() {
    assert_eq!(Some(TokenKind::Let), brinkc::token::get_keyword_kind(b"let"));
    assert_eq!(None, brinkc::token::get_keyword_kind(b"letter"));
    assert_eq!(None, brinkc::token::get_keyword_kind(b""));
    assert_eq!(None, brinkc::token::get_keyword_kind(b"Let"));
}

#[test]
fn lexeme_round_trip_by_span() {
    // Re-slicing the source with an Integer or Identifier token's span
    // reproduces exactly the consumed lexeme.
    let text = "let foo = 123\n";
    let tokens = Lexer::tokenize_source_code(text, IndentKind::Spaces(2));
    let file = SourceFile {
        file_path: String::from("main.brink"),
        source_code: String::from(text),
        indent_kind: IndentKind::Spaces(2),
    };
    assert_eq!(TokenKind::Let, tokens[0].kind);
    assert_eq!(&b"let"[..], file.read_span(tokens[0].span));
    assert_eq!(TokenKind::Identifier, tokens[1].kind);
    assert_eq!(&b"foo"[..], file.read_span(tokens[1].span));
    assert_eq!(TokenKind::Integer, tokens[3].kind);
    assert_eq!(&b"123"[..], file.read_span(tokens[3].span));
}

#[test]
fn mixed_indentation_spans() {
    // Tab after spaces under a spaces convention: the pseudo-token covers
    // one position after the line feed.
    let spaces = Lexer::tokenize_source_code("\n  \t\n", IndentKind::Spaces(2));
    assert_eq!(TokenKind::NewLine, spaces[0].kind);
    assert_eq!(TokenKind::MixedIndentation, spaces[1].kind);
    assert_eq!(1, spaces[1].span.start);
    assert_eq!(2, spaces[1].span.end);

    // Spaces after tabs under the tab convention: the pseudo-token covers
    // the offending spaces.
    let tabs = Lexer::tokenize_source_code("\n\t  \n", IndentKind::Tab);
    assert_eq!(TokenKind::NewLine, tabs[0].kind);
    assert_eq!(TokenKind::MixedIndentation, tabs[1].kind);
    assert_eq!(2, tabs[1].span.start);
    assert_eq!(4, tabs[1].span.end);
}

#[test]
fn operator_and_invalid_spans_are_one_byte() {
    let result = Lexer::tokenize_source_code("x = @", IndentKind::Tab);
    assert_eq!(TokenKind::Identifier, result[0].kind);
    assert_eq!(TokenKind::Equal, result[1].kind);
    assert_eq!((2, 3), (result[1].span.start, result[1].span.end));
    assert_eq!(TokenKind::Invalid, result[2].kind);
    assert_eq!((4, 5), (result[2].span.start, result[2].span.end));
}
