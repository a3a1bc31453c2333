use orange::lexer::{Lexer, TokenType};
use orange::parser::{Expression, Literal, ParseError, Parser, Statement};

fn parse(source: &str) -> Result<Vec<Statement>, ParseError> {
    let mut lexer = Lexer::new(source);
    lexer.tokenize().expect("lexical error");
    let mut parser = Parser::new(lexer.tokens);
    parser.parse()
}

fn parse_ok(source: &str) -> Vec<Statement> {
    parse(source).expect("syntax error")
}

fn number(text: &str) -> Expression {
    Expression::Literal(Literal::Number(String::from(text)))
}

fn variable(name: &str) -> Expression {
    Expression::Variable(String::from(name))
}

fn binary(lhs: Expression, operator: TokenType, rhs: Expression) -> Expression {
    Expression::Binary { lhs: Box::new(lhs), operator, rhs: Box::new(rhs) }
}

#[test]
fn declaration_respects_precedence() {
    let stmts = parse_ok("let x = 1 + 2 * 3;");
    let expected = Statement::Declaration {
        variable_name: String::from("x"),
        expression: binary(
            number("1"),
            TokenType::Plus,
            binary(number("2"), TokenType::Asterisk, number("3")),
        ),
    };
    assert_eq!(stmts, vec![expected]);
}

#[test]
fn grouping_overrides_precedence() {
    let stmts = parse_ok("(1 + 2) * 3;");
    let expected = Statement::Expression(binary(
        Expression::Grouping(Box::new(binary(number("1"), TokenType::Plus, number("2")))),
        TokenType::Asterisk,
        number("3"),
    ));
    assert_eq!(stmts, vec![expected]);
}

#[test]
fn missing_expression_is_a_syntax_error() {
    assert_eq!(
        parse("let x = ;"),
        Err(ParseError::ExpectedExpression { found: TokenType::Semicolon }),
    );
}

#[test]
fn statement_count_matches_the_productions() {
    let stmts = parse_ok("let a = 1; a = 2; 1 + a;");
    assert_eq!(stmts.len(), 3);
    assert!(matches!(stmts[0], Statement::Declaration { .. }));
    assert!(matches!(stmts[1], Statement::Assignment { .. }));
    assert!(matches!(stmts[2], Statement::Expression(_)));
}

#[test]
fn empty_program_parses_to_no_statements() {
    assert_eq!(parse_ok(""), vec![]);
    assert_eq!(parse_ok("# only a comment"), vec![]);
}

#[test]
fn assignment_captures_the_target_name() {
    let stmts = parse_ok("x = 5;");
    let expected = Statement::Assignment {
        variable_name: String::from("x"),
        expression: number("5"),
    };
    assert_eq!(stmts, vec![expected]);
}

#[test]
fn assignment_name_is_not_taken_from_the_right_hand_side() {
    let stmts = parse_ok("x = y;");
    let expected = Statement::Assignment {
        variable_name: String::from("x"),
        expression: variable("y"),
    };
    assert_eq!(stmts, vec![expected]);
}

#[test]
fn binary_operators_are_left_associative() {
    let stmts = parse_ok("1 - 2 - 3;");
    let expected = Statement::Expression(binary(
        binary(number("1"), TokenType::Minus, number("2")),
        TokenType::Minus,
        number("3"),
    ));
    assert_eq!(stmts, vec![expected]);
}

#[test]
fn comparison_binds_tighter_than_equality() {
    let stmts = parse_ok("1 < 2 == true;");
    let expected = Statement::Expression(binary(
        binary(number("1"), TokenType::Less, number("2")),
        TokenType::EqualEqual,
        Expression::Literal(Literal::Boolean(true)),
    ));
    assert_eq!(stmts, vec![expected]);
}

#[test]
fn unary_operators_nest() {
    let stmts = parse_ok("--1;");
    let expected = Statement::Expression(Expression::Unary {
        operator: TokenType::Minus,
        rhs: Box::new(Expression::Unary {
            operator: TokenType::Minus,
            rhs: Box::new(number("1")),
        }),
    });
    assert_eq!(stmts, vec![expected]);

    let stmts = parse_ok("!true;");
    let expected = Statement::Expression(Expression::Unary {
        operator: TokenType::Bang,
        rhs: Box::new(Expression::Literal(Literal::Boolean(true))),
    });
    assert_eq!(stmts, vec![expected]);
}

#[test]
fn string_and_boolean_literals_are_expressions() {
    let stmts = parse_ok("\"hi\";");
    let expected = Statement::Expression(Expression::Literal(Literal::String(String::from("hi"))));
    assert_eq!(stmts, vec![expected]);

    let stmts = parse_ok("false;");
    let expected = Statement::Expression(Expression::Literal(Literal::Boolean(false)));
    assert_eq!(stmts, vec![expected]);
}

#[test]
fn while_loop_carries_condition_and_body() {
    let stmts = parse_ok("while x < 3 { x = x + 1; }");
    let expected = Statement::Loop {
        loop_type: TokenType::While,
        condition: Some(Box::new(binary(variable("x"), TokenType::Less, number("3")))),
        variable: None,
        range_begin: None,
        range_end: None,
        body: vec![Box::new(Statement::Assignment {
            variable_name: String::from("x"),
            expression: binary(variable("x"), TokenType::Plus, number("1")),
        })],
    };
    assert_eq!(stmts, vec![expected]);
}

#[test]
fn for_loop_carries_variable_bounds_and_body() {
    let stmts = parse_ok("for i in 0, 10 { let y = i; }");
    let expected = Statement::Loop {
        loop_type: TokenType::For,
        condition: None,
        variable: Some(String::from("i")),
        range_begin: Some(Box::new(number("0"))),
        range_end: Some(Box::new(number("10"))),
        body: vec![Box::new(Statement::Declaration {
            variable_name: String::from("y"),
            expression: variable("i"),
        })],
    };
    assert_eq!(stmts, vec![expected]);
}

#[test]
fn loop_bodies_may_hold_several_statements() {
    let stmts = parse_ok("while b { x = 1; y = 2; }");
    match &stmts[0] {
        Statement::Loop { loop_type, body, .. } => {
            assert_eq!(*loop_type, TokenType::While);
            assert_eq!(body.len(), 2);
        }
        other => panic!("expected a loop, got {:?}", other),
    }
}

#[test]
fn empty_loop_body() {
    let stmts = parse_ok("while b { }");
    match &stmts[0] {
        Statement::Loop { body, condition, .. } => {
            assert!(body.is_empty());
            assert_eq!(
                condition.as_deref(),
                Some(&variable("b")),
            );
        }
        other => panic!("expected a loop, got {:?}", other),
    }
}

#[test]
fn unclosed_parenthesis_is_a_syntax_error() {
    assert_eq!(
        parse("(1;"),
        Err(ParseError::UnexpectedToken {
            expected: TokenType::RightParenthesis,
            found: TokenType::Semicolon,
        }),
    );
}

#[test]
fn declaration_needs_a_name() {
    assert_eq!(
        parse("let 5 = 3;"),
        Err(ParseError::UnexpectedToken {
            expected: TokenType::Identifier,
            found: TokenType::Number,
        }),
    );
}

#[test]
fn missing_semicolon_is_a_syntax_error() {
    assert_eq!(
        parse("1 + 2"),
        Err(ParseError::UnexpectedToken {
            expected: TokenType::Semicolon,
            found: TokenType::EOF,
        }),
    );
}

#[test]
fn unclosed_loop_body_is_a_syntax_error() {
    assert_eq!(
        parse("while x { 1;"),
        Err(ParseError::ExpectedExpression { found: TokenType::EOF }),
    );
}

#[test]
fn caret_has_no_binary_tier() {
    assert_eq!(
        parse("2 ^ 3;"),
        Err(ParseError::UnexpectedToken {
            expected: TokenType::Semicolon,
            found: TokenType::Caret,
        }),
    );
}

#[test]
fn leading_identifier_commits_to_an_assignment() {
    // statement dispatch always reads a leading identifier as the start of
    // an assignment, so a bare identifier-led expression is rejected
    assert_eq!(
        parse("a + 1;"),
        Err(ParseError::UnexpectedToken {
            expected: TokenType::Equal,
            found: TokenType::Plus,
        }),
    );
}

#[test]
fn for_loop_needs_its_variable() {
    assert_eq!(
        parse("for 1 in 0, 2 { }"),
        Err(ParseError::UnexpectedToken {
            expected: TokenType::Identifier,
            found: TokenType::Number,
        }),
    );
}
