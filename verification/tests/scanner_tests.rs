use jlox::scanner::Scanner;
use jlox::token::{ScanError, Token, TokenType};

fn scan(source: &str) -> Result<Vec<Token>, ScanError> {
    let mut scanner = Scanner::new(source);
    scanner.scan_tokens()
}

fn kinds(tokens: &[Token]) -> Vec<TokenType> {
    tokens.iter().map(|t| t.token_type).collect()
}

#[test]
fn empty_input_is_single_eof_on_line_1() {
    let tokens = scan("").unwrap();
    assert_eq!(tokens.len(), 1);
    assert_eq!(tokens[0].token_type, TokenType::Eof);
    assert_eq!(tokens[0].lexeme, "");
    assert_eq!(tokens[0].literal, None);
    assert_eq!(tokens[0].line, 1);
}

#[test]
fn punctuation_run_all_on_line_1() {
    let tokens = scan("(( )){}").unwrap();
    assert_eq!(
        kinds(&tokens),
        vec![
            TokenType::LeftParen,
            TokenType::LeftParen,
            TokenType::RightParen,
            TokenType::RightParen,
            TokenType::LeftBrace,
            TokenType::RightBrace,
            TokenType::Eof,
        ]
    );
    for t in &tokens {
        assert_eq!(t.line, 1);
    }
}

#[test]
fn comment_then_number_on_line_2() {
    let tokens = scan("// comment\n123").unwrap();
    assert_eq!(tokens.len(), 2);
    assert_eq!(tokens[0].token_type, TokenType::Number);
    assert_eq!(tokens[0].lexeme, "123");
    assert_eq!(tokens[0].literal, Some(String::from("123")));
    assert_eq!(tokens[0].line, 2);
    assert_eq!(tokens[1].token_type, TokenType::Eof);
    assert_eq!(tokens[1].line, 2);
}

#[test]
fn multi_line_string_literal_and_line_counter() {
    let mut scanner = Scanner::new("\"ab\ncd\"");
    let tokens = scanner.scan_tokens().unwrap();
    assert_eq!(tokens.len(), 2);
    assert_eq!(tokens[0].token_type, TokenType::String);
    assert_eq!(tokens[0].lexeme, "\"ab\ncd\"");
    assert_eq!(tokens[0].literal, Some(String::from("ab\ncd")));
    // The token starts on line 1; the counter ends on line 2.
    assert_eq!(tokens[0].line, 1);
    assert_eq!(scanner.line, 2);
    assert_eq!(tokens[1].token_type, TokenType::Eof);
}

#[test]
fn unterminated_string_fails_on_line_1() {
    let result = scan("\"unterminated");
    assert_eq!(result, Err(ScanError::UnterminatedString { line: 1 }));
}

#[test]
fn unterminated_string_reports_line_at_end_of_input() {
    let result = scan("\"ab\ncd");
    assert_eq!(result, Err(ScanError::UnterminatedString { line: 2 }));
}

#[test]
fn trailing_dot_is_not_part_of_the_number() {
    let tokens = scan("12.").unwrap();
    assert_eq!(
        kinds(&tokens),
        vec![TokenType::Number, TokenType::Dot, TokenType::Eof]
    );
    assert_eq!(tokens[0].lexeme, "12");
    assert_eq!(tokens[0].literal, Some(String::from("12")));
}

#[test]
fn fractional_number_is_one_token() {
    let tokens = scan("3.14").unwrap();
    assert_eq!(kinds(&tokens), vec![TokenType::Number, TokenType::Eof]);
    assert_eq!(tokens[0].lexeme, "3.14");
    assert_eq!(tokens[0].literal, Some(String::from("3.14")));
}

#[test]
fn second_dot_ends_the_number() {
    let tokens = scan("1.2.3").unwrap();
    assert_eq!(
        kinds(&tokens),
        vec![
            TokenType::Number,
            TokenType::Dot,
            TokenType::Number,
            TokenType::Eof,
        ]
    );
    assert_eq!(tokens[0].lexeme, "1.2");
    assert_eq!(tokens[2].lexeme, "3");
}

#[test]
fn keyword_matching_is_exact_and_maximal() {
    let tokens = scan("and andy").unwrap();
    assert_eq!(
        kinds(&tokens),
        vec![TokenType::And, TokenType::Identifier, TokenType::Eof]
    );
    assert_eq!(tokens[0].lexeme, "and");
    assert_eq!(tokens[1].lexeme, "andy");
    assert_eq!(tokens[1].literal, None);
}

#[test]
fn scanning_twice_yields_identical_sequences() {
    let source = "var x = 1.5; // set\nprint \"hi\" != nil";
    let first = scan(source).unwrap();
    let second = scan(source).unwrap();
    assert_eq!(first, second);
}

#[test]
fn one_and_two_character_operators() {
    let tokens = scan("! != = == < <= > >=").unwrap();
    assert_eq!(
        kinds(&tokens),
        vec![
            TokenType::Bang,
            TokenType::BangEqual,
            TokenType::Equal,
            TokenType::EqualEqual,
            TokenType::Less,
            TokenType::LessEqual,
            TokenType::Greater,
            TokenType::GreaterEqual,
            TokenType::Eof,
        ]
    );
}

#[test]
fn slash_alone_is_a_token_comment_is_not() {
    let tokens = scan("1/2").unwrap();
    assert_eq!(
        kinds(&tokens),
        vec![
            TokenType::Number,
            TokenType::Slash,
            TokenType::Number,
            TokenType::Eof,
        ]
    );
    let tokens = scan("//x").unwrap();
    assert_eq!(kinds(&tokens), vec![TokenType::Eof]);
    assert_eq!(tokens[0].line, 1);
}

#[test]
fn all_keywords_resolve() {
    let source = "and class else false fun for if nil or print return super this true var while";
    let tokens = scan(source).unwrap();
    assert_eq!(
        kinds(&tokens),
        vec![
            TokenType::And,
            TokenType::Class,
            TokenType::Else,
            TokenType::False,
            TokenType::Fun,
            TokenType::For,
            TokenType::If,
            TokenType::Nil,
            TokenType::Or,
            TokenType::Print,
            TokenType::Return,
            TokenType::Super,
            TokenType::This,
            TokenType::True,
            TokenType::Var,
            TokenType::While,
            TokenType::Eof,
        ]
    );
}

#[test]
fn identifiers_may_hold_underscores_and_digits() {
    let tokens = scan("_tmp9 x_1").unwrap();
    assert_eq!(
        kinds(&tokens),
        vec![TokenType::Identifier, TokenType::Identifier, TokenType::Eof]
    );
    assert_eq!(tokens[0].lexeme, "_tmp9");
    assert_eq!(tokens[1].lexeme, "x_1");
}

#[test]
fn unexpected_characters_are_collected_and_scanning_continues() {
    let mut scanner = Scanner::new("@ 1 #");
    let tokens = scanner.scan_tokens().unwrap();
    assert_eq!(kinds(&tokens), vec![TokenType::Number, TokenType::Eof]);
    assert_eq!(scanner.errors.len(), 2);
    assert_eq!(scanner.errors[0].line, 1);
    assert_eq!(scanner.errors[0].ch, '@');
    assert_eq!(scanner.errors[1].line, 1);
    assert_eq!(scanner.errors[1].ch, '#');
}

#[test]
fn newlines_advance_the_line_counter() {
    let tokens = scan("+\n-\n\n*").unwrap();
    assert_eq!(tokens[0].line, 1);
    assert_eq!(tokens[1].line, 2);
    assert_eq!(tokens[2].line, 4);
    assert_eq!(tokens[3].token_type, TokenType::Eof);
    assert_eq!(tokens[3].line, 4);
}

#[test]
fn last_token_is_always_a_single_eof_with_empty_lexeme() {
    for source in ["", "var x;", "(( )){}", "// only a comment", "1 2 3\n"] {
        let tokens = scan(source).unwrap();
        let last = tokens.last().unwrap();
        assert_eq!(last.token_type, TokenType::Eof);
        assert_eq!(last.lexeme, "");
        assert_eq!(
            tokens
                .iter()
                .filter(|t| t.token_type == TokenType::Eof)
                .count(),
            1
        );
    }
}

#[test]
fn concatenated_lexemes_reconstruct_the_significant_characters() {
    let source = "var x = 1.5; // set\nprint \"a b\" != nil";
    let tokens = scan(source).unwrap();
    let joined: String = tokens.iter().map(|t| t.lexeme.as_str()).collect();
    assert_eq!(joined, "varx=1.5;print\"a b\"!=nil");
}

#[test]
fn maximal_munch_splits_number_then_identifier() {
    let tokens = scan("123abc").unwrap();
    assert_eq!(
        kinds(&tokens),
        vec![TokenType::Number, TokenType::Identifier, TokenType::Eof]
    );
    assert_eq!(tokens[0].lexeme, "123");
    assert_eq!(tokens[1].lexeme, "abc");
}

#[test]
fn string_may_hold_comment_markers_and_blanks() {
    let tokens = scan("\"// not a comment\"").unwrap();
    assert_eq!(kinds(&tokens), vec![TokenType::String, TokenType::Eof]);
    assert_eq!(
        tokens[0].literal,
        Some(String::from("// not a comment"))
    );
}
