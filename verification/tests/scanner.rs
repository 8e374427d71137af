use rlox::scanner::{ScanError, Scanner};
use rlox::token::{keyword, same_bytes, Lexeme, Literal, Token, TokenType};

fn scan(source: &str) -> (Vec<Token<'_>>, Vec<ScanError>) {
    Scanner::new(source).scan_tokens()
}

fn kinds(tokens: &[Token<'_>]) -> Vec<TokenType> {
    tokens.iter().map(|token| token.token_type).collect()
}

fn number_value(token: &Token<'_>) -> f64 {
    match token.literal {
        Some(Literal::Number(digits)) => {
            std::str::from_utf8(digits).unwrap().parse::<f64>().unwrap()
        }
        _ => panic!("not a number token"),
    }
}

#[test]
fn basic_multiline_comment() {
    let source_string = "/* comment */";

    let scanner = Scanner::new(&source_string);

    let (tokens, _) = scanner.scan_tokens();

    let comment_token = &tokens[0];

    assert!(matches!(comment_token.token_type, TokenType::MultiLineComment));

    assert_eq!(comment_token.lexeme, Lexeme(source_string.as_bytes()));

    assert_eq!(
        comment_token.literal.as_ref().unwrap(),
        &Literal::String(b" comment ")
    );
}

#[test]
fn nested_valid_mutliline_comments() {
    let source_string = "/* comment /* another */ /* deeper */ */";

    let scanner = Scanner::new(&source_string);

    let (tokens, errors) = scanner.scan_tokens();

    assert!(errors.is_empty());

    let comment_token = &tokens[0];

    assert!(matches!(comment_token.token_type, TokenType::MultiLineComment));

    assert_eq!(comment_token.lexeme, Lexeme(source_string.as_bytes()));

    assert_eq!(
        comment_token.literal.as_ref().unwrap(),
        &Literal::String(b" comment /* another */ /* deeper */ ")
    );
}

#[test]
fn unterminated_simple_multiline_comment() {
    let source_string = "/* comment ";

    let scanner = Scanner::new(&source_string);

    let (_, errors) = scanner.scan_tokens();

    assert!(!errors.is_empty());

    assert!(matches!(errors[0], ScanError::UnterminatedMultiLineComment));
}

#[test]
fn unterminated_nested_multiline_comment() {
    let source_string = "/* comment /* /* /* */";

    let scanner = Scanner::new(&source_string);

    let (_, errors) = scanner.scan_tokens();

    assert!(!errors.is_empty());

    assert!(matches!(errors[0], ScanError::UnterminatedMultiLineComment));
}

#[test]
fn advanced_multiline_nested_comment() {
    let source_string = "/* /* */ /* /* */ */ */";

    let scanner = Scanner::new(&source_string);

    let (tokens, errors) = scanner.scan_tokens();

    assert!(errors.is_empty());

    let comment_token = &tokens[0];

    assert!(matches!(comment_token.token_type, TokenType::MultiLineComment));

    assert_eq!(comment_token.lexeme, Lexeme(source_string.as_bytes()));

    assert_eq!(
        comment_token.literal.as_ref().unwrap(),
        &Literal::String(b" /* */ /* /* */ */ ")
    );
}

#[test]
fn empty_source_yields_only_eof() {
    let (tokens, errors) = scan("");
    assert!(errors.is_empty());
    assert_eq!(
        tokens,
        vec![Token { token_type: TokenType::Eof, lexeme: Lexeme(b""), literal: None, line: 1 }]
    );
}

#[test]
fn balanced_comment_is_one_token_without_errors() {
    let (tokens, errors) = scan("/* comment */");
    assert!(errors.is_empty());
    assert_eq!(kinds(&tokens), vec![TokenType::MultiLineComment, TokenType::Eof]);
    assert_eq!(tokens[0].literal, Some(Literal::String(b" comment ")));
    assert_eq!(tokens[0].line, 1);
}

#[test]
fn unterminated_comment_yields_no_comment_token() {
    let (tokens, errors) = scan("/* comment ");
    assert_eq!(errors, vec![ScanError::UnterminatedMultiLineComment]);
    assert_eq!(kinds(&tokens), vec![TokenType::Eof]);
}

#[test]
fn deeply_nested_unterminated_comment_is_one_error() {
    let (tokens, errors) = scan("/* comment /* /* /* */");
    assert_eq!(errors, vec![ScanError::UnterminatedMultiLineComment]);
    assert_eq!(kinds(&tokens), vec![TokenType::Eof]);
}

#[test]
fn comment_ends_where_depth_returns_to_zero() {
    let (tokens, errors) = scan("/* a /* b */ c */ + /* d */");
    assert!(errors.is_empty());
    assert_eq!(
        kinds(&tokens),
        vec![
            TokenType::MultiLineComment,
            TokenType::Plus,
            TokenType::MultiLineComment,
            TokenType::Eof
        ]
    );
    assert_eq!(tokens[0].lexeme, Lexeme(b"/* a /* b */ c */"));
    assert_eq!(tokens[0].literal, Some(Literal::String(b" a /* b */ c ")));
    assert_eq!(tokens[2].literal, Some(Literal::String(b" d ")));
}

#[test]
fn adjacent_delimiters_are_separate_events() {
    let (tokens, errors) = scan("/*/**/*/");
    assert!(errors.is_empty());
    assert_eq!(kinds(&tokens), vec![TokenType::MultiLineComment, TokenType::Eof]);
    assert_eq!(tokens[0].literal, Some(Literal::String(b"/**/")));

    // The `*` of an opener does not also close: `/*/` leaves the comment open.
    let (tokens, errors) = scan("/*/");
    assert_eq!(errors, vec![ScanError::UnterminatedMultiLineComment]);
    assert_eq!(kinds(&tokens), vec![TokenType::Eof]);

    let (tokens, errors) = scan("/**/");
    assert!(errors.is_empty());
    assert_eq!(tokens[0].literal, Some(Literal::String(b"")));
}

#[test]
fn comments_side_by_side_are_two_tokens() {
    let (tokens, errors) = scan("/* a *//* b */");
    assert!(errors.is_empty());
    assert_eq!(
        kinds(&tokens),
        vec![TokenType::MultiLineComment, TokenType::MultiLineComment, TokenType::Eof]
    );
    assert_eq!(tokens[0].literal, Some(Literal::String(b" a ")));
    assert_eq!(tokens[1].literal, Some(Literal::String(b" b ")));

    let (tokens, errors) = scan("/* a */ /* b");
    assert_eq!(errors, vec![ScanError::UnterminatedMultiLineComment]);
    assert_eq!(kinds(&tokens), vec![TokenType::MultiLineComment, TokenType::Eof]);

    // Inside a comment `*/ /*` closes one level and opens another.
    let (tokens, errors) = scan("/* /* a */ /* b */ */ c");
    assert!(errors.is_empty());
    assert_eq!(
        kinds(&tokens),
        vec![TokenType::MultiLineComment, TokenType::Identifier, TokenType::Eof]
    );
    assert_eq!(tokens[0].literal, Some(Literal::String(b" /* a */ /* b */ ")));
}

#[test]
fn comment_counts_the_lines_it_spans() {
    let (tokens, errors) = scan("/* one\ntwo\n*/ x");
    assert!(errors.is_empty());
    assert_eq!(
        kinds(&tokens),
        vec![TokenType::MultiLineComment, TokenType::Identifier, TokenType::Eof]
    );
    assert_eq!(tokens[0].line, 1);
    assert_eq!(tokens[1].line, 3);
    assert_eq!(tokens[2].line, 3);
}

#[test]
fn single_line_comment_stops_before_the_newline() {
    let (tokens, errors) = scan("// note\n+");
    assert!(errors.is_empty());
    assert_eq!(kinds(&tokens), vec![TokenType::SingleLineComment, TokenType::Plus, TokenType::Eof]);
    assert_eq!(tokens[0].lexeme, Lexeme(b"// note"));
    assert_eq!(tokens[0].literal, Some(Literal::String(b" note")));
    assert_eq!(tokens[0].line, 1);
    assert_eq!(tokens[1].line, 2);

    let (tokens, _) = scan("//");
    assert_eq!(kinds(&tokens), vec![TokenType::SingleLineComment, TokenType::Eof]);
    assert_eq!(tokens[0].literal, Some(Literal::String(b"")));
}

#[test]
fn bare_slash_is_an_operator() {
    let (tokens, errors) = scan("a / b");
    assert!(errors.is_empty());
    assert_eq!(
        kinds(&tokens),
        vec![TokenType::Identifier, TokenType::Slash, TokenType::Identifier, TokenType::Eof]
    );
    assert_eq!(tokens[1].literal, None);
}

#[test]
fn string_literal_holds_the_text_between_the_quotes() {
    let (tokens, errors) = scan("\"hi\"");
    assert!(errors.is_empty());
    assert_eq!(kinds(&tokens), vec![TokenType::String, TokenType::Eof]);
    assert_eq!(tokens[0].lexeme, Lexeme(b"\"hi\""));
    assert_eq!(tokens[0].literal, Some(Literal::String(b"hi")));
}

#[test]
fn string_may_span_lines() {
    let (tokens, errors) = scan("\"a\nb\" c");
    assert!(errors.is_empty());
    assert_eq!(kinds(&tokens), vec![TokenType::String, TokenType::Identifier, TokenType::Eof]);
    assert_eq!(tokens[0].literal, Some(Literal::String(b"a\nb")));
    assert_eq!(tokens[0].line, 1);
    assert_eq!(tokens[1].line, 2);
}

#[test]
fn unterminated_string_yields_no_token() {
    let (tokens, errors) = scan("x \"abc\ndef");
    assert_eq!(errors, vec![ScanError::UnterminatedString]);
    assert_eq!(kinds(&tokens), vec![TokenType::Identifier, TokenType::Eof]);
    assert_eq!(tokens[1].line, 2);
}

#[test]
fn trailing_dot_is_not_part_of_a_number() {
    let (tokens, errors) = scan("1.");
    assert!(errors.is_empty());
    assert_eq!(kinds(&tokens), vec![TokenType::Number, TokenType::Dot, TokenType::Eof]);
    assert_eq!(tokens[0].lexeme, Lexeme(b"1"));
    assert_eq!(number_value(&tokens[0]), 1.0);
    assert_eq!(tokens[1].lexeme, Lexeme(b"."));
}

#[test]
fn number_takes_one_fraction() {
    let (tokens, errors) = scan("12.50.75");
    assert!(errors.is_empty());
    assert_eq!(
        kinds(&tokens),
        vec![TokenType::Number, TokenType::Dot, TokenType::Number, TokenType::Eof]
    );
    assert_eq!(tokens[0].literal, Some(Literal::Number(b"12.50")));
    assert_eq!(number_value(&tokens[0]), 12.5);
    assert_eq!(number_value(&tokens[2]), 75.0);

    let (tokens, _) = scan("7.x");
    assert_eq!(
        kinds(&tokens),
        vec![TokenType::Number, TokenType::Dot, TokenType::Identifier, TokenType::Eof]
    );
}

#[test]
fn keyword_needs_the_whole_word() {
    let (tokens, errors) = scan("class");
    assert!(errors.is_empty());
    assert_eq!(kinds(&tokens), vec![TokenType::Class, TokenType::Eof]);
    assert_eq!(tokens[0].literal, None);

    let (tokens, errors) = scan("classy");
    assert!(errors.is_empty());
    assert_eq!(kinds(&tokens), vec![TokenType::Identifier, TokenType::Eof]);
    assert_eq!(tokens[0].lexeme, Lexeme(b"classy"));

    let (tokens, _) = scan("Class");
    assert_eq!(kinds(&tokens), vec![TokenType::Identifier, TokenType::Eof]);
}

#[test]
fn every_keyword_has_its_kind() {
    let (tokens, errors) =
        scan("and class else false for fun if nil or print return super this true var while");
    assert!(errors.is_empty());
    assert_eq!(
        kinds(&tokens),
        vec![
            TokenType::And,
            TokenType::Class,
            TokenType::Else,
            TokenType::False,
            TokenType::For,
            TokenType::Fun,
            TokenType::If,
            TokenType::Nil,
            TokenType::Or,
            TokenType::Print,
            TokenType::Return,
            TokenType::Super,
            TokenType::This,
            TokenType::True,
            TokenType::Var,
            TokenType::While,
            TokenType::Eof
        ]
    );
}

#[test]
fn identifiers_take_letters_digits_and_underscores() {
    let (tokens, errors) = scan("_a1_b2 x9");
    assert!(errors.is_empty());
    assert_eq!(kinds(&tokens), vec![TokenType::Identifier, TokenType::Identifier, TokenType::Eof]);
    assert_eq!(tokens[0].lexeme, Lexeme(b"_a1_b2"));
    assert_eq!(tokens[1].lexeme, Lexeme(b"x9"));
}

#[test]
fn punctuation_is_one_byte_each() {
    let (tokens, errors) = scan("(){},.-+;*");
    assert!(errors.is_empty());
    assert_eq!(
        kinds(&tokens),
        vec![
            TokenType::LeftParen,
            TokenType::RightParen,
            TokenType::LeftBrace,
            TokenType::RightBrace,
            TokenType::Comma,
            TokenType::Dot,
            TokenType::Minus,
            TokenType::Plus,
            TokenType::Semicolon,
            TokenType::Star,
            TokenType::Eof
        ]
    );
    for token in &tokens[..10] {
        assert_eq!(token.lexeme.0.len(), 1);
        assert_eq!(token.literal, None);
    }
}

#[test]
fn operators_look_one_byte_ahead() {
    let (tokens, errors) = scan("! != = == > >= < <=");
    assert!(errors.is_empty());
    assert_eq!(
        kinds(&tokens),
        vec![
            TokenType::Bang,
            TokenType::BangEqual,
            TokenType::Equal,
            TokenType::EqualEqual,
            TokenType::Greater,
            TokenType::GreaterEqual,
            TokenType::Less,
            TokenType::LessEqual,
            TokenType::Eof
        ]
    );
    assert_eq!(tokens[1].lexeme, Lexeme(b"!="));

    let (tokens, _) = scan("===");
    assert_eq!(kinds(&tokens), vec![TokenType::EqualEqual, TokenType::Equal, TokenType::Eof]);
}

#[test]
fn unexpected_character_is_one_error_among_the_tokens() {
    let (tokens, errors) = scan("var x @ = 1;");
    assert_eq!(errors, vec![ScanError::UnexpectedCharacter(b'@')]);
    assert_eq!(
        kinds(&tokens),
        vec![
            TokenType::Var,
            TokenType::Identifier,
            TokenType::Equal,
            TokenType::Number,
            TokenType::Semicolon,
            TokenType::Eof
        ]
    );
    let (clean, none) = scan("var x   = 1;");
    assert!(none.is_empty());
    assert_eq!(tokens, clean);
}

#[test]
fn errors_come_in_the_order_met() {
    let (tokens, errors) = scan("# $ /* open");
    assert_eq!(
        errors,
        vec![
            ScanError::UnexpectedCharacter(b'#'),
            ScanError::UnexpectedCharacter(b'$'),
            ScanError::UnterminatedMultiLineComment
        ]
    );
    assert_eq!(kinds(&tokens), vec![TokenType::Eof]);
}

#[test]
fn bytes_outside_ascii_are_unexpected_one_by_one() {
    let (tokens, errors) = scan("a é b");
    assert_eq!(
        errors,
        vec![ScanError::UnexpectedCharacter(0xC3), ScanError::UnexpectedCharacter(0xA9)]
    );
    assert_eq!(kinds(&tokens), vec![TokenType::Identifier, TokenType::Identifier, TokenType::Eof]);
}

#[test]
fn whitespace_yields_nothing_and_newlines_count() {
    let (tokens, errors) = scan(" \t\r\n\n  ");
    assert!(errors.is_empty());
    assert_eq!(
        tokens,
        vec![Token { token_type: TokenType::Eof, lexeme: Lexeme(b""), literal: None, line: 3 }]
    );
}

#[test]
fn last_token_is_the_only_eof() {
    for source in ["", "1 + 2", "/* open", "\"open", "@", "a\nb\nc\n", "// c"] {
        let (tokens, _) = scan(source);
        let (last, before) = tokens.split_last().unwrap();
        assert_eq!(last.token_type, TokenType::Eof);
        assert_eq!(last.lexeme, Lexeme(b""));
        assert_eq!(last.literal, None);
        assert_eq!(last.line, 1 + source.bytes().filter(|b| *b == b'\n').count());
        assert!(before.iter().all(|token| token.token_type != TokenType::Eof));
    }
}

#[test]
fn tokens_come_in_line_and_offset_order() {
    let source = "var a = \"x\ny\";\n/* c\n */ print a; // done\nb >= 1.5";
    let (tokens, errors) = scan(source);
    assert!(errors.is_empty());
    let base = source.as_ptr() as usize;
    let mut previous_end = 0;
    let mut previous_line = 1;
    for token in &tokens {
        let start = token.lexeme.0.as_ptr() as usize - base;
        assert!(previous_end <= start);
        assert!(previous_line <= token.line);
        previous_end = start + token.lexeme.0.len();
        previous_line = token.line;
    }
    assert_eq!(previous_end, source.len());
}

#[test]
fn lexemes_are_the_source_at_their_place() {
    let source = "fun f(a) { return a != 10.25; } // end";
    let (tokens, errors) = scan(source);
    assert!(errors.is_empty());
    let base = source.as_ptr() as usize;
    for token in &tokens {
        let start = token.lexeme.0.as_ptr() as usize - base;
        let end = start + token.lexeme.0.len();
        assert_eq!(token.lexeme.0, &source.as_bytes()[start..end]);
        assert_eq!(token.token_type == TokenType::Eof, start == end);
        assert_eq!(
            token.line,
            1 + source.as_bytes()[..start].iter().filter(|b| **b == b'\n').count()
        );
    }
    let texts: Vec<&[u8]> = tokens.iter().map(|token| token.lexeme.0).collect();
    let expected: Vec<&[u8]> = vec![
        b"fun", b"f", b"(", b"a", b")", b"{", b"return", b"a", b"!=", b"10.25", b";", b"}",
        b"// end", b"",
    ];
    assert_eq!(texts, expected);
}

#[test]
fn keyword_table_is_exact() {
    assert_eq!(keyword(b"while"), Some(TokenType::While));
    assert_eq!(keyword(b"nil"), Some(TokenType::Nil));
    assert_eq!(keyword(b"whil"), None);
    assert_eq!(keyword(b"While"), None);
    assert_eq!(keyword(b""), None);
    assert_eq!(keyword(b"eof"), None);
}

#[test]
fn same_bytes_compares_contents() {
    assert!(same_bytes(b"", b""));
    assert!(same_bytes(b"abc", b"abc"));
    assert!(!same_bytes(b"abc", b"abd"));
    assert!(!same_bytes(b"abc", b"ab"));
}

#[test]
fn generated_sources_keep_order_spans_and_lines() {
    let alphabet: &[u8] = b"ab_1 9./*\"\n=!<>(){};,+-@#\t\rclassor";
    let mut state: u64 = 0x2545_F491_4F6C_DD1D;
    for round in 0..400 {
        let length = round % 40;
        let mut bytes = Vec::new();
        for _ in 0..length {
            state ^= state << 13;
            state ^= state >> 7;
            state ^= state << 17;
            bytes.push(alphabet[(state % alphabet.len() as u64) as usize]);
        }
        let source = String::from_utf8(bytes).unwrap();
        let (tokens, errors) = scan(&source);

        let (last, before) = tokens.split_last().unwrap();
        assert_eq!(last.token_type, TokenType::Eof);
        assert!(before.iter().all(|token| token.token_type != TokenType::Eof));

        let base = source.as_ptr() as usize;
        let mut previous_end = 0;
        let mut covered = 0;
        for token in &tokens {
            let start = token.lexeme.0.as_ptr() as usize - base;
            let end = start + token.lexeme.0.len();
            assert!(previous_end <= start && end <= source.len());
            assert_eq!(token.lexeme.0, &source.as_bytes()[start..end]);
            assert_eq!(
                token.line,
                1 + source.as_bytes()[..start].iter().filter(|b| **b == b'\n').count()
            );
            assert_eq!(token.lexeme.to_text(), &source[start..end]);
            covered += end - start;
            previous_end = end;
        }
        assert!(covered <= source.len());
        let unexpected = source.bytes().filter(|b| *b == b'@' || *b == b'#').count();
        let reported =
            errors.iter().filter(|e| matches!(e, ScanError::UnexpectedCharacter(_))).count();
        assert!(reported <= unexpected);
        let unterminated = errors.len() - reported;
        assert!(unterminated <= 1);
    }
}
