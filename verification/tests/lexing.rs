use orange::lexer::{Lexer, Token, TokenType};

fn lex(source: &str) -> Vec<Token> {
    let mut lexer = Lexer::new(source);
    lexer.tokenize().expect("lexical error");
    lexer.tokens
}

fn kinds(source: &str) -> Vec<TokenType> {
    lex(source).into_iter().map(|t| t.token_type).collect()
}

fn lexemes(source: &str) -> Vec<Option<String>> {
    lex(source).into_iter().map(|t| t.token_name).collect()
}

#[test]
fn single_character_tokens() {
    let cases = [
        (".", TokenType::Dot),
        (",", TokenType::Comma),
        ("(", TokenType::LeftParenthesis),
        (")", TokenType::RightParenthesis),
        ("[", TokenType::LeftBracket),
        ("]", TokenType::RightBracket),
        ("{", TokenType::LeftBrace),
        ("}", TokenType::RightBrace),
        ("?", TokenType::QuestionMark),
        (";", TokenType::Semicolon),
        ("!", TokenType::Bang),
        ("+", TokenType::Plus),
        ("-", TokenType::Minus),
        ("*", TokenType::Asterisk),
        ("/", TokenType::Slash),
        ("%", TokenType::Percent),
        ("^", TokenType::Caret),
        ("=", TokenType::Equal),
        (">", TokenType::Greater),
        ("<", TokenType::Less),
    ];
    for (source, kind) in cases {
        assert_eq!(kinds(source), vec![kind, TokenType::EOF], "source: {source}");
    }
}

#[test]
fn empty_input_yields_only_eof() {
    assert_eq!(kinds(""), vec![TokenType::EOF]);
}

#[test]
fn two_character_operators_combine() {
    let cases = [
        ("==", TokenType::EqualEqual),
        ("!=", TokenType::BangEqual),
        (">=", TokenType::GreaterEqual),
        ("<=", TokenType::LessEqual),
        ("&&", TokenType::And),
        ("||", TokenType::Or),
    ];
    for (source, kind) in cases {
        assert_eq!(kinds(source), vec![kind, TokenType::EOF], "source: {source}");
    }
}

#[test]
fn number_literals() {
    assert_eq!(
        lexemes("123"),
        vec![Some(String::from("123")), None],
    );
    assert_eq!(
        lexemes("12.5"),
        vec![Some(String::from("12.5")), None],
    );
}

#[test]
fn second_decimal_point_splits_the_literal() {
    let tokens = lex("1.2.3");
    let got: Vec<(TokenType, Option<String>)> =
        tokens.into_iter().map(|t| (t.token_type, t.token_name)).collect();
    assert_eq!(
        got,
        vec![
            (TokenType::Number, Some(String::from("1.2"))),
            (TokenType::Dot, None),
            (TokenType::Number, Some(String::from("3"))),
            (TokenType::EOF, None),
        ],
    );
}

#[test]
fn trailing_decimal_point_stays_in_the_literal() {
    assert_eq!(lexemes("7."), vec![Some(String::from("7.")), None]);
}

#[test]
fn comments_produce_no_tokens() {
    let tokens = lex("# a comment\n42;");
    let got: Vec<(TokenType, Option<String>)> =
        tokens.into_iter().map(|t| (t.token_type, t.token_name)).collect();
    assert_eq!(
        got,
        vec![
            (TokenType::Number, Some(String::from("42"))),
            (TokenType::Semicolon, None),
            (TokenType::EOF, None),
        ],
    );
}

#[test]
fn comment_to_end_of_input() {
    assert_eq!(kinds("# nothing else"), vec![TokenType::EOF]);
}

#[test]
fn keywords_are_recognized() {
    assert_eq!(
        kinds("let if else while do in for fn return use"),
        vec![
            TokenType::Let,
            TokenType::If,
            TokenType::Else,
            TokenType::While,
            TokenType::Do,
            TokenType::In,
            TokenType::For,
            TokenType::Function,
            TokenType::Return,
            TokenType::Use,
            TokenType::EOF,
        ],
    );
}

#[test]
fn booleans_keep_their_text() {
    let tokens = lex("true false");
    assert_eq!(tokens[0].token_type, TokenType::Boolean);
    assert_eq!(tokens[0].token_name, Some(String::from("true")));
    assert_eq!(tokens[1].token_type, TokenType::Boolean);
    assert_eq!(tokens[1].token_name, Some(String::from("false")));
    assert_eq!(tokens[2].token_type, TokenType::EOF);
}

#[test]
fn identifiers_keep_their_text() {
    let tokens = lex("foo _bar x1 letter");
    assert_eq!(tokens.len(), 5);
    for (token, text) in tokens.iter().zip(["foo", "_bar", "x1", "letter"]) {
        assert_eq!(token.token_type, TokenType::Identifier);
        assert_eq!(token.token_name, Some(String::from(text)));
    }
}

#[test]
fn string_literal_payload_is_between_the_quotes() {
    let tokens = lex("\"hi there\"");
    assert_eq!(tokens[0].token_type, TokenType::String);
    assert_eq!(tokens[0].token_name, Some(String::from("hi there")));
    assert_eq!(tokens[1].token_type, TokenType::EOF);
}

#[test]
fn unterminated_string_collects_to_end_of_input() {
    let tokens = lex("\"abc");
    assert_eq!(tokens[0].token_type, TokenType::String);
    assert_eq!(tokens[0].token_name, Some(String::from("abc")));
    assert_eq!(tokens[1].token_type, TokenType::EOF);
}

#[test]
fn lone_ampersand_and_pipe_are_dropped() {
    assert_eq!(kinds("&"), vec![TokenType::EOF]);
    assert_eq!(kinds("|"), vec![TokenType::EOF]);
    assert_eq!(
        kinds("a & b"),
        vec![TokenType::Identifier, TokenType::Identifier, TokenType::EOF],
    );
    assert_eq!(
        kinds("|x"),
        vec![TokenType::Identifier, TokenType::EOF],
    );
}

#[test]
fn operators_between_operands() {
    assert_eq!(
        kinds("a<=b"),
        vec![
            TokenType::Identifier,
            TokenType::LessEqual,
            TokenType::Identifier,
            TokenType::EOF,
        ],
    );
    assert_eq!(
        kinds("a=b==c"),
        vec![
            TokenType::Identifier,
            TokenType::Equal,
            TokenType::Identifier,
            TokenType::EqualEqual,
            TokenType::Identifier,
            TokenType::EOF,
        ],
    );
}

#[test]
fn unknown_character_is_a_lexical_error() {
    let mut lexer = Lexer::new("@");
    let e = lexer.tokenize().expect_err("expected a lexical error");
    assert_eq!(e.ch, '@');
}

#[test]
fn error_after_valid_tokens_reports_the_offending_character() {
    let mut lexer = Lexer::new("let x ~");
    let e = lexer.tokenize().expect_err("expected a lexical error");
    assert_eq!(e.ch, '~');
}

#[test]
fn whitespace_and_newlines_are_discarded() {
    assert_eq!(
        kinds("  1\n\t2  "),
        vec![TokenType::Number, TokenType::Number, TokenType::EOF],
    );
}

#[test]
fn token_kind_symbols() {
    assert_eq!(TokenType::Plus.symbol(), "+");
    assert_eq!(TokenType::While.symbol(), "while");
    assert_eq!(TokenType::EqualEqual.symbol(), "==");
    assert_eq!(TokenType::Identifier.symbol(), "identifier");
    assert_eq!(TokenType::EOF.symbol(), "EOF");
}
