use rustjvm::compiler::lexer::{lex, LexError, Token};

#[test]
fn token_stream_ends_in_eof() {
    let ts = lex("").unwrap();
    assert_eq!(ts.len(), 1);
    assert!(matches!(ts[0], Token::Eof));
    let ts = lex("@GetMapping(\"/x\") // note\n/* block */ a.b;").unwrap();
    assert!(matches!(ts.last(), Some(Token::Eof)));
    assert_eq!(ts.iter().filter(|t| matches!(t, Token::Eof)).count(), 1);
}

#[test]
fn unterminated_string_reports_its_line() {
    let e = lex("class A {\n/* one\ntwo */\n  String s = \"open;\n}\n").unwrap_err();
    assert!(matches!(e, LexError::UnterminatedString(4)));
}
