use brinkc::frontend::find_mixed_and_invalid_indentations;
use brinkc::lexer::Lexer;
use brinkc::node_id::{NodeId, NodeIdGenerator};
use brinkc::parse_session::ParseSession;
use brinkc::source_file::{detect_indent_kind, IndentKind, SourceFile, SourceSpan};
use brinkc::token::{Token, TokenKind};
use brinkc::tokens::Tokens;

fn session_for(text: &str, indent_kind: IndentKind) -> ParseSession {
    ParseSession::new(SourceFile {
        file_path: String::from("main.brink"),
        source_code: String::from(text),
        indent_kind,
    })
}

#[test]
fn counts_indentation_diagnostics() {
    // One mixed line (tab under spaces) and one invalid line (three spaces
    // under a two-space convention).
    let text = "\n\t\n   \n";
    let tokens = Tokens::new(Lexer::tokenize_source_code(text, IndentKind::Spaces(2)));
    let mut session = session_for(text, IndentKind::Spaces(2));
    let diagnostics = find_mixed_and_invalid_indentations(&mut session, &tokens);
    assert_eq!(2, diagnostics.len());
    assert_eq!(TokenKind::MixedIndentation, diagnostics[0].kind);
    assert_eq!(TokenKind::InvalidIndentation, diagnostics[1].kind);
    assert_eq!(2, session.error_count());
    assert_eq!(0, session.warning_count());
    assert!(session.has_errors());
}

#[test]
fn clean_stream_has_no_diagnostics() {
    let text = "let x = 5\n";
    let tokens = Tokens::new(Lexer::tokenize_source_code(text, IndentKind::Spaces(2)));
    let mut session = session_for(text, IndentKind::Spaces(2));
    let diagnostics = find_mixed_and_invalid_indentations(&mut session, &tokens);
    assert!(diagnostics.is_empty());
    assert_eq!(0, session.error_count());
    assert!(!session.has_errors());
}

#[test]
fn session_counts_errors_and_warnings_separately() {
    let mut session = session_for("", IndentKind::Tab);
    let span = SourceSpan::new(0, 0);
    session.error(span);
    session.error(span);
    session.warning(span);
    assert_eq!(2, session.error_count());
    assert_eq!(1, session.warning_count());
    assert!(session.has_errors());
}

#[test]
fn node_id_generator_counts_up() {
    let mut generator = NodeIdGenerator::new();
    assert_eq!(0, generator.next_id().as_usize());
    assert_eq!(1, generator.next_id().as_usize());
    assert_eq!(2, generator.next_id().as_usize());
    let id = NodeId::from_usize(41);
    assert_eq!(41, id.as_usize());
}

#[test]
fn cursor_walks_stream_and_stops_at_end() {
    let text = "let x";
    let mut cursor = Tokens::new(Lexer::tokenize_source_code(text, IndentKind::Tab));
    assert!(!cursor.at_end());
    assert!(cursor.check(TokenKind::Let));
    assert!(!cursor.check(TokenKind::Identifier));
    assert_eq!(TokenKind::Let, cursor.peek().kind);

    assert!(cursor.consume(TokenKind::Identifier).is_none());
    let keyword = cursor.consume(TokenKind::Let).unwrap();
    assert_eq!(TokenKind::Let, keyword.kind);
    assert_eq!(TokenKind::Let, cursor.previous().kind);

    let identifier = cursor.advance();
    assert_eq!(TokenKind::Identifier, identifier.kind);
    assert!(cursor.at_end());
    // Advancing at EndOfFile returns EndOfFile again without moving.
    assert_eq!(TokenKind::EndOfFile, cursor.advance().kind);
    assert_eq!(TokenKind::EndOfFile, cursor.advance().kind);
    assert!(cursor.at_end());
}

#[test]
fn cursor_exposes_underlying_tokens() {
    let tokens = Lexer::tokenize_source_code("=", IndentKind::Tab);
    let cursor = Tokens::new(tokens.clone());
    let vec: &Vec<Token> = cursor.as_vec();
    assert_eq!(tokens.len(), vec.len());
    assert_eq!(TokenKind::Equal, vec[0].kind);
}

#[test]
fn detects_tab_indentation() {
    let text = String::from("top\n\tindented\n");
    assert_eq!(IndentKind::Tab, detect_indent_kind(&text));
}

#[test]
fn detects_space_indentation_width() {
    let two = String::from("top\n  indented\n");
    assert_eq!(IndentKind::Spaces(2), detect_indent_kind(&two));
    let four = String::from("top\n    indented\n");
    assert_eq!(IndentKind::Spaces(4), detect_indent_kind(&four));
}

#[test]
fn detection_defaults_to_two_spaces() {
    let flat = String::from("no indentation here\nnone\n");
    assert_eq!(IndentKind::Spaces(2), detect_indent_kind(&flat));
    let empty = String::from("");
    assert_eq!(IndentKind::Spaces(2), detect_indent_kind(&empty));
}

#[test]
fn detection_skips_blank_and_undecided_lines() {
    // Blank lines and an indented run followed by more whitespace do not
    // decide; the first decisive line does.
    let text = String::from("\n   \n  \tmixed\n\tcode\n");
    assert_eq!(IndentKind::Tab, detect_indent_kind(&text));
}

#[test]
fn token_with_length_spans_from_start() {
    let token = Token::with_length(TokenKind::Integer, 3, 4);
    assert_eq!(3, token.span.start);
    assert_eq!(7, token.span.end);
    assert_eq!(4, token.span.len());
    let span = SourceSpan::from_length(10, 2);
    assert_eq!(SourceSpan::new(10, 12), span);
    assert_eq!(2, span.len());
}
