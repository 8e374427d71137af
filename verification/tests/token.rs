use rlox::scanner::Scanner;
use rlox::token::{Lexeme, Literal, TokenType};

#[test]
fn lexeme_text_is_the_decoded_bytes() {
    assert_eq!(Lexeme(b"while").to_text(), "while");
    assert_eq!(Lexeme(b"").to_text(), "");
    assert_eq!(Lexeme("\"caf\u{e9} \u{1F980}\"".as_bytes()).to_text(), "\"caf\u{e9} \u{1F980}\"");
}

#[test]
fn string_literal_text_is_quoted() {
    assert_eq!(Literal::String(b"hi").to_text(), "\"hi\"");
    assert_eq!(Literal::String(b"").to_text(), "\"\"");
    assert_eq!(Literal::String("na\u{ef}ve".as_bytes()).to_text(), "\"na\u{ef}ve\"");
}

#[test]
fn number_literal_text_is_as_written() {
    assert_eq!(Literal::Number(b"1.50").to_text(), "1.50");
    assert_eq!(Literal::Number(b"007").to_text(), "007");
}

#[test]
fn scanned_tokens_decode_as_text() {
    let source = "print \"h\u{e9}llo\"; // \u{4e16}\u{754c}\n/* \u{1F600} */ x1 = 2.5";
    let (tokens, errors) = Scanner::new(source).scan_tokens();
    assert!(errors.is_empty());
    let texts: Vec<String> = tokens.iter().map(|token| token.lexeme.to_text()).collect();
    assert_eq!(
        texts,
        vec![
            "print",
            "\"h\u{e9}llo\"",
            ";",
            "// \u{4e16}\u{754c}",
            "/* \u{1F600} */",
            "x1",
            "=",
            "2.5",
            ""
        ]
    );
    let literals: Vec<Option<String>> =
        tokens.iter().map(|token| token.literal.map(|literal| literal.to_text())).collect();
    assert_eq!(
        literals,
        vec![
            None,
            Some("\"h\u{e9}llo\"".to_owned()),
            None,
            Some("\" \u{4e16}\u{754c}\"".to_owned()),
            Some("\" \u{1F600} \"".to_owned()),
            None,
            None,
            Some("2.5".to_owned()),
            None
        ]
    );
    assert_eq!(tokens[0].token_type, TokenType::Print);
}
