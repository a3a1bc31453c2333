//! Recursive-descent parser: consumes the token sequence through a single
//! forward-moving cursor and builds the abstract syntax tree.
//!
//! The grammar is stated by the spec functions `spec_program`,
//! `spec_statement` and the expression tiers below them; the executable
//! parser is proved to return exactly what they say.

use vstd::prelude::*;
use crate::lexer::{Token, TokenType, TokenModel, views, token_has_payload};

verus! {

/// A literal value, carrying the literal text for numbers and strings.
#[derive(Debug, PartialEq)]
pub enum Literal {
    Number(String),
    String(String),
    Boolean(bool),
}

/// An expression node; every child is owned by its parent.
#[derive(Debug, PartialEq)]
pub enum Expression {
    Literal(Literal),
    Variable(String),
    Grouping(Box<Expression>),
    Unary { operator: TokenType, rhs: Box<Expression> },
    Binary { lhs: Box<Expression>, operator: TokenType, rhs: Box<Expression> },
}

/// A statement node. A loop is tagged by its form: a conditioned loop
/// (`while`) carries a condition, a ranged loop (`for`) carries its
/// variable and its two range bounds.
#[derive(Debug, PartialEq)]
pub enum Statement {
    Declaration { variable_name: String, expression: Expression },
    Assignment { variable_name: String, expression: Expression },
    Expression(Expression),
    Loop {
        loop_type: TokenType,
        condition: Option<Box<Expression>>,
        variable: Option<String>,
        range_begin: Option<Box<Expression>>,
        range_end: Option<Box<Expression>>,
        body: Vec<Box<Statement>>,
    },
}

/// Model of a literal.
pub enum LiteralModel {
    Number(Seq<char>),
    String(Seq<char>),
    Boolean(bool),
}

/// Model of an expression.
pub enum ExpressionModel {
    Literal(LiteralModel),
    Variable(Seq<char>),
    Grouping(Box<ExpressionModel>),
    Unary { operator: TokenType, rhs: Box<ExpressionModel> },
    Binary { lhs: Box<ExpressionModel>, operator: TokenType, rhs: Box<ExpressionModel> },
}

/// Model of a statement.
pub enum StatementModel {
    Declaration { variable_name: Seq<char>, expression: ExpressionModel },
    Assignment { variable_name: Seq<char>, expression: ExpressionModel },
    Expression(ExpressionModel),
    Loop {
        loop_type: TokenType,
        condition: Option<Box<ExpressionModel>>,
        variable: Option<Seq<char>>,
        range_begin: Option<Box<ExpressionModel>>,
        range_end: Option<Box<ExpressionModel>>,
        body: Seq<StatementModel>,
    },
}

pub open spec fn lit_view(l: Literal) -> LiteralModel {
    match l {
        Literal::Number(s) => LiteralModel::Number(s@),
        Literal::String(s) => LiteralModel::String(s@),
        Literal::Boolean(b) => LiteralModel::Boolean(b),
    }
}

pub open spec fn expr_view(e: Expression) -> ExpressionModel
    decreases e,
{
    match e {
        Expression::Literal(l) => ExpressionModel::Literal(lit_view(l)),
        Expression::Variable(n) => ExpressionModel::Variable(n@),
        Expression::Grouping(inner) => ExpressionModel::Grouping(Box::new(expr_view(*inner))),
        Expression::Unary { operator, rhs } => ExpressionModel::Unary {
            operator: operator,
            rhs: Box::new(expr_view(*rhs)),
        },
        Expression::Binary { lhs, operator, rhs } => ExpressionModel::Binary {
            lhs: Box::new(expr_view(*lhs)),
            operator: operator,
            rhs: Box::new(expr_view(*rhs)),
        },
    }
}

pub open spec fn opt_expr_view(o: Option<Box<Expression>>) -> Option<Box<ExpressionModel>> {
    match o {
        Option::Some(e) => Option::Some(Box::new(expr_view(*e))),
        Option::None => Option::None,
    }
}

pub open spec fn opt_name_view(o: Option<String>) -> Option<Seq<char>> {
    match o {
        Option::Some(s) => Option::Some(s@),
        Option::None => Option::None,
    }
}

pub open spec fn stmt_view(s: Statement) -> StatementModel
    decreases s,
{
    match s {
        Statement::Declaration { variable_name, expression } => StatementModel::Declaration {
            variable_name: variable_name@,
            expression: expr_view(expression),
        },
        Statement::Assignment { variable_name, expression } => StatementModel::Assignment {
            variable_name: variable_name@,
            expression: expr_view(expression),
        },
        Statement::Expression(e) => StatementModel::Expression(expr_view(e)),
        Statement::Loop { loop_type, condition, variable, range_begin, range_end, body } => StatementModel::Loop {
            loop_type: loop_type,
            condition: opt_expr_view(condition),
            variable: opt_name_view(variable),
            range_begin: opt_expr_view(range_begin),
            range_end: opt_expr_view(range_end),
            body: stmts_view(body@),
        },
    }
}

pub open spec fn stmts_view(ss: Seq<Box<Statement>>) -> Seq<StatementModel>
    decreases ss,
{
    if ss.len() == 0 {
        Seq::empty()
    } else {
        stmts_view(ss.drop_last()).push(stmt_view(*ss.last()))
    }
}

impl View for Literal {
    type V = LiteralModel;

    open spec fn view(&self) -> LiteralModel {
        lit_view(*self)
    }
}

impl View for Expression {
    type V = ExpressionModel;

    open spec fn view(&self) -> ExpressionModel {
        expr_view(*self)
    }
}

impl View for Statement {
    type V = StatementModel;

    open spec fn view(&self) -> StatementModel {
        stmt_view(*self)
    }
}

/// A syntax error: the token kind that was required and the kind found, or
/// the kind found where an expression had to begin.
#[derive(Debug, Clone, Copy, PartialEq, Eq, Structural)]
pub enum ParseError {
    UnexpectedToken { expected: TokenType, found: TokenType },
    ExpectedExpression { found: TokenType },
}

/// The token kind at position `i`; past the end it reads as end-of-input.
pub open spec fn kind_at(ts: Seq<TokenModel>, i: int) -> TokenType {
    if 0 <= i < ts.len() {
        ts[i].kind
    } else {
        TokenType::EOF
    }
}

/// The lexeme at position `i` (empty for tokens without one).
pub open spec fn text_at(ts: Seq<TokenModel>, i: int) -> Seq<char> {
    if 0 <= i < ts.len() && ts[i].text is Some {
        ts[i].text->Some_0
    } else {
        Seq::empty()
    }
}

/// The cursor after a sub-parse, as the grammar recursion uses it.
/// Sub-parses only ever move the cursor forward within the sequence (the
/// bounds lemma confirms it), so the fallback branches never actually bite;
/// they only make termination of the spec functions evident.
pub open spec fn progress(n: int, i: int, j: int) -> int {
    if i < j <= n {
        j
    } else if i < n {
        i + 1
    } else {
        n
    }
}

/// Demanding one token kind: the cursor past it, or the syntax error naming
/// the expected and the found kind.
pub open spec fn expect_kind(ts: Seq<TokenModel>, i: int, k: TokenType) -> Result<int, ParseError> {
    if kind_at(ts, i) == k {
        Ok(i + 1)
    } else {
        Err(ParseError::UnexpectedToken { expected: k, found: kind_at(ts, i) })
    }
}

pub open spec fn equality_op(k: TokenType) -> bool {
    k == TokenType::BangEqual || k == TokenType::EqualEqual
}

pub open spec fn comparison_op(k: TokenType) -> bool {
    k == TokenType::Greater || k == TokenType::GreaterEqual || k == TokenType::Less
        || k == TokenType::LessEqual
}

pub open spec fn term_op(k: TokenType) -> bool {
    k == TokenType::Plus || k == TokenType::Minus
}

pub open spec fn factor_op(k: TokenType) -> bool {
    k == TokenType::Asterisk || k == TokenType::Slash || k == TokenType::Percent
}

/// primary = NUMBER | IDENT | STRING | BOOLEAN | '(' expression ')'
pub open spec fn spec_primary(ts: Seq<TokenModel>, i: int) -> Result<(ExpressionModel, int), ParseError>
    decreases ts.len() - i, 1int when 0 <= i <= ts.len()
{
    let k = kind_at(ts, i);
    if k == TokenType::Number {
        Ok((ExpressionModel::Literal(LiteralModel::Number(text_at(ts, i))), i + 1))
    } else if k == TokenType::Identifier {
        Ok((ExpressionModel::Variable(text_at(ts, i)), i + 1))
    } else if k == TokenType::String {
        Ok((ExpressionModel::Literal(LiteralModel::String(text_at(ts, i))), i + 1))
    } else if k == TokenType::Boolean {
        Ok((ExpressionModel::Literal(LiteralModel::Boolean(text_at(ts, i) == "true"@)), i + 1))
    } else if k == TokenType::LeftParenthesis {
        match spec_expression(ts, i + 1) {
            Err(e) => Err(e),
            Ok((inner, j)) => match expect_kind(ts, j, TokenType::RightParenthesis) {
                Err(e) => Err(e),
                Ok(j2) => Ok((ExpressionModel::Grouping(Box::new(inner)), j2)),
            },
        }
    } else {
        Err(ParseError::ExpectedExpression { found: k })
    }
}

/// unary = { '-' | '!' } primary
pub open spec fn spec_unary(ts: Seq<TokenModel>, i: int) -> Result<(ExpressionModel, int), ParseError>
    decreases ts.len() - i, 2int when 0 <= i <= ts.len()
{
    let k = kind_at(ts, i);
    if k == TokenType::Minus || k == TokenType::Bang {
        match spec_unary(ts, i + 1) {
            Err(e) => Err(e),
            Ok((rhs, j)) => Ok((ExpressionModel::Unary { operator: k, rhs: Box::new(rhs) }, j)),
        }
    } else {
        spec_primary(ts, i)
    }
}

/// The `{ ('*' | '/' | '%') unary }` tail, folded left onto `acc`.
pub open spec fn spec_factor_more(ts: Seq<TokenModel>, i: int, acc: ExpressionModel) -> Result<
    (ExpressionModel, int),
    ParseError,
>
    decreases ts.len() - i, 3int when 0 <= i <= ts.len()
{
    let k = kind_at(ts, i);
    if factor_op(k) {
        match spec_unary(ts, i + 1) {
            Err(e) => Err(e),
            Ok((rhs, j)) => spec_factor_more(
                ts,
                progress(ts.len() as int, i, j),
                ExpressionModel::Binary { lhs: Box::new(acc), operator: k, rhs: Box::new(rhs) },
            ),
        }
    } else {
        Ok((acc, i))
    }
}

/// factor = unary { ('*' | '/' | '%') unary }, left-associative
pub open spec fn spec_factor(ts: Seq<TokenModel>, i: int) -> Result<(ExpressionModel, int), ParseError>
    decreases ts.len() - i, 4int when 0 <= i <= ts.len()
{
    match spec_unary(ts, i) {
        Err(e) => Err(e),
        Ok((e0, j)) => spec_factor_more(ts, progress(ts.len() as int, i, j), e0),
    }
}

/// The `{ ('+' | '-') factor }` tail, folded left onto `acc`.
pub open spec fn spec_term_more(ts: Seq<TokenModel>, i: int, acc: ExpressionModel) -> Result<
    (ExpressionModel, int),
    ParseError,
>
    decreases ts.len() - i, 5int when 0 <= i <= ts.len()
{
    let k = kind_at(ts, i);
    if term_op(k) {
        match spec_factor(ts, i + 1) {
            Err(e) => Err(e),
            Ok((rhs, j)) => spec_term_more(
                ts,
                progress(ts.len() as int, i, j),
                ExpressionModel::Binary { lhs: Box::new(acc), operator: k, rhs: Box::new(rhs) },
            ),
        }
    } else {
        Ok((acc, i))
    }
}

/// term = factor { ('+' | '-') factor }, left-associative
pub open spec fn spec_term(ts: Seq<TokenModel>, i: int) -> Result<(ExpressionModel, int), ParseError>
    decreases ts.len() - i, 6int when 0 <= i <= ts.len()
{
    match spec_factor(ts, i) {
        Err(e) => Err(e),
        Ok((e0, j)) => spec_term_more(ts, progress(ts.len() as int, i, j), e0),
    }
}

/// The `{ ('>' | '>=' | '<' | '<=') term }` tail, folded left onto `acc`.
pub open spec fn spec_comparison_more(ts: Seq<TokenModel>, i: int, acc: ExpressionModel) -> Result<
    (ExpressionModel, int),
    ParseError,
>
    decreases ts.len() - i, 7int when 0 <= i <= ts.len()
{
    let k = kind_at(ts, i);
    if comparison_op(k) {
        match spec_term(ts, i + 1) {
            Err(e) => Err(e),
            Ok((rhs, j)) => spec_comparison_more(
                ts,
                progress(ts.len() as int, i, j),
                ExpressionModel::Binary { lhs: Box::new(acc), operator: k, rhs: Box::new(rhs) },
            ),
        }
    } else {
        Ok((acc, i))
    }
}

/// comparison = term { ('>' | '>=' | '<' | '<=') term }, left-associative
pub open spec fn spec_comparison(ts: Seq<TokenModel>, i: int) -> Result<(ExpressionModel, int), ParseError>
    decreases ts.len() - i, 8int when 0 <= i <= ts.len()
{
    match spec_term(ts, i) {
        Err(e) => Err(e),
        Ok((e0, j)) => spec_comparison_more(ts, progress(ts.len() as int, i, j), e0),
    }
}

/// The `{ ('!=' | '==') comparison }` tail, folded left onto `acc`.
pub open spec fn spec_equality_more(ts: Seq<TokenModel>, i: int, acc: ExpressionModel) -> Result<
    (ExpressionModel, int),
    ParseError,
>
    decreases ts.len() - i, 9int when 0 <= i <= ts.len()
{
    let k = kind_at(ts, i);
    if equality_op(k) {
        match spec_comparison(ts, i + 1) {
            Err(e) => Err(e),
            Ok((rhs, j)) => spec_equality_more(
                ts,
                progress(ts.len() as int, i, j),
                ExpressionModel::Binary { lhs: Box::new(acc), operator: k, rhs: Box::new(rhs) },
            ),
        }
    } else {
        Ok((acc, i))
    }
}

/// equality = comparison { ('!=' | '==') comparison }, left-associative
pub open spec fn spec_equality(ts: Seq<TokenModel>, i: int) -> Result<(ExpressionModel, int), ParseError>
    decreases ts.len() - i, 10int when 0 <= i <= ts.len()
{
    match spec_comparison(ts, i) {
        Err(e) => Err(e),
        Ok((e0, j)) => spec_equality_more(ts, progress(ts.len() as int, i, j), e0),
    }
}

/// expression = equality
pub open spec fn spec_expression(ts: Seq<TokenModel>, i: int) -> Result<(ExpressionModel, int), ParseError>
    decreases ts.len() - i, 11int when 0 <= i <= ts.len()
{
    spec_equality(ts, i)
}

/// assignment = IDENT '=' expression (the value of the parse is the
/// right-hand expression; the name is read by the caller).
pub open spec fn spec_assignment(ts: Seq<TokenModel>, i: int) -> Result<(ExpressionModel, int), ParseError>
    decreases ts.len() - i, 12int when 0 <= i <= ts.len()
{
    match expect_kind(ts, i, TokenType::Identifier) {
        Err(e) => Err(e),
        Ok(i1) => match expect_kind(ts, i1, TokenType::Equal) {
            Err(e) => Err(e),
            Ok(i2) => spec_expression(ts, i2),
        },
    }
}

/// declaration = 'let' IDENT '=' expression, at the position of `let`.
/// The bound name is read before the initializer is parsed.
pub open spec fn spec_declaration(ts: Seq<TokenModel>, i: int) -> Result<(StatementModel, int), ParseError>
    decreases ts.len() - i, 13int when 0 <= i <= ts.len()
{
    let i1 = if i < ts.len() { i + 1 } else { i };
    let name = text_at(ts, i1);
    match spec_assignment(ts, i1) {
        Err(e) => Err(e),
        Ok((e, j)) => Ok((StatementModel::Declaration { variable_name: name, expression: e }, j)),
    }
}

/// ranged = 'for' IDENT 'in' expression ',' expression '{' { statement } '}',
/// at the position of `for`.
pub open spec fn spec_for_statement(ts: Seq<TokenModel>, i: int) -> Result<
    (StatementModel, int),
    ParseError,
>
    decreases ts.len() - i, 13int when 0 <= i <= ts.len()
{
    let n = ts.len() as int;
    if kind_at(ts, i) != TokenType::For {
        Err(ParseError::UnexpectedToken { expected: TokenType::For, found: kind_at(ts, i) })
    } else {
        let i1 = i + 1;
        match expect_kind(ts, i1, TokenType::Identifier) {
            Err(e) => Err(e),
            Ok(i2) => {
                let name = text_at(ts, i1);
                match expect_kind(ts, i2, TokenType::In) {
                    Err(e) => Err(e),
                    Ok(i3) => match spec_expression(ts, i3) {
                        Err(e) => Err(e),
                        Ok((begin, j1)) => match expect_kind(ts, j1, TokenType::Comma) {
                            Err(e) => Err(e),
                            Ok(j2) => match spec_expression(ts, progress(n, i, j2)) {
                                Err(e) => Err(e),
                                Ok((end, j3)) => match expect_kind(ts, j3, TokenType::LeftBrace) {
                                    Err(e) => Err(e),
                                    Ok(j4) => match spec_block(ts, progress(n, i, j4)) {
                                        Err(e) => Err(e),
                                        Ok((body, j5)) => Ok((
                                            StatementModel::Loop {
                                                loop_type: TokenType::For,
                                                condition: Option::None,
                                                variable: Option::Some(name),
                                                range_begin: Option::Some(Box::new(begin)),
                                                range_end: Option::Some(Box::new(end)),
                                                body: body,
                                            },
                                            j5,
                                        )),
                                    },
                                },
                            },
                        },
                    },
                }
            },
        }
    }
}

/// conditioned = 'while' expression '{' { statement } '}', at the position
/// of `while`.
pub open spec fn spec_while_statement(ts: Seq<TokenModel>, i: int) -> Result<
    (StatementModel, int),
    ParseError,
>
    decreases ts.len() - i, 13int when 0 <= i <= ts.len()
{
    let n = ts.len() as int;
    if kind_at(ts, i) != TokenType::While {
        Err(ParseError::UnexpectedToken { expected: TokenType::While, found: kind_at(ts, i) })
    } else {
        match spec_expression(ts, i + 1) {
            Err(e) => Err(e),
            Ok((cond, j1)) => match expect_kind(ts, j1, TokenType::LeftBrace) {
                Err(e) => Err(e),
                Ok(j2) => match spec_block(ts, progress(n, i, j2)) {
                    Err(e) => Err(e),
                    Ok((body, j3)) => Ok((
                        StatementModel::Loop {
                            loop_type: TokenType::While,
                            condition: Option::Some(Box::new(cond)),
                            variable: Option::None,
                            range_begin: Option::None,
                            range_end: Option::None,
                            body: body,
                        },
                        j3,
                    )),
                },
            },
        }
    }
}

/// statement = (declaration ';') | (assignment ';') | (expression ';') | loop
pub open spec fn spec_statement(ts: Seq<TokenModel>, i: int) -> Result<(StatementModel, int), ParseError>
    decreases ts.len() - i, 14int when 0 <= i <= ts.len()
{
    let k = kind_at(ts, i);
    let n = ts.len() as int;
    if k == TokenType::Let {
        match spec_declaration(ts, i) {
            Err(e) => Err(e),
            Ok((st, j)) => match expect_kind(ts, j, TokenType::Semicolon) {
                Err(e) => Err(e),
                Ok(j2) => Ok((st, j2)),
            },
        }
    } else if k == TokenType::Identifier {
        // the target name is captured before the right-hand side is parsed
        let name = text_at(ts, i);
        match spec_assignment(ts, i) {
            Err(e) => Err(e),
            Ok((e, j)) => match expect_kind(ts, j, TokenType::Semicolon) {
                Err(e) => Err(e),
                Ok(j2) => Ok((StatementModel::Assignment { variable_name: name, expression: e }, j2)),
            },
        }
    } else if k == TokenType::For {
        spec_for_statement(ts, i)
    } else if k == TokenType::While {
        spec_while_statement(ts, i)
    } else {
        match spec_expression(ts, i) {
            Err(e) => Err(e),
            Ok((e, j)) => match expect_kind(ts, j, TokenType::Semicolon) {
                Err(e) => Err(e),
                Ok(j2) => Ok((StatementModel::Expression(e), j2)),
            },
        }
    }
}

/// A loop body: statements up to and past the closing brace.
pub open spec fn spec_block(ts: Seq<TokenModel>, i: int) -> Result<(Seq<StatementModel>, int), ParseError>
    decreases ts.len() - i, 15int when 0 <= i <= ts.len()
{
    let k = kind_at(ts, i);
    if k == TokenType::RightBrace {
        Ok((Seq::empty(), i + 1))
    } else if k == TokenType::EOF {
        // end of input inside a body: the statement parse below fails there
        Err(ParseError::ExpectedExpression { found: TokenType::EOF })
    } else {
        match spec_statement(ts, i) {
            Err(e) => Err(e),
            Ok((st, j)) => match spec_block(ts, progress(ts.len() as int, i, j)) {
                Err(e) => Err(e),
                Ok((rest, j2)) => Ok((seq![st] + rest, j2)),
            },
        }
    }
}

/// program = { statement }, up to the first end-of-input token.
pub open spec fn spec_program(ts: Seq<TokenModel>, i: int) -> Result<(Seq<StatementModel>, int), ParseError>
    decreases ts.len() - i, 16int when 0 <= i <= ts.len()
{
    if kind_at(ts, i) == TokenType::EOF {
        Ok((Seq::empty(), i))
    } else {
        match spec_statement(ts, i) {
            Err(e) => Err(e),
            Ok((st, j)) => match spec_program(ts, progress(ts.len() as int, i, j)) {
                Err(e) => Err(e),
                Ok((rest, j2)) => Ok((seq![st] + rest, j2)),
            },
        }
    }
}

/// The sequence ends with an end-of-input token.
pub open spec fn eof_last(ts: Seq<TokenModel>) -> bool {
    ts.len() >= 1 && ts[ts.len() - 1].kind == TokenType::EOF
}

pub proof fn lemma_primary_bounds(ts: Seq<TokenModel>, i: int)
    requires
        eof_last(ts),
        0 <= i <= ts.len(),
    ensures
        spec_primary(ts, i) matches Ok((e, j)) ==> i < j <= ts.len() - 1,
    decreases ts.len() - i, 1int,
{
    let k = kind_at(ts, i);
    if k == TokenType::LeftParenthesis {
        lemma_expression_bounds(ts, i + 1);
    }
}

pub proof fn lemma_unary_bounds(ts: Seq<TokenModel>, i: int)
    requires
        eof_last(ts),
        0 <= i <= ts.len(),
    ensures
        spec_unary(ts, i) matches Ok((e, j)) ==> i < j <= ts.len() - 1,
    decreases ts.len() - i, 2int,
{
    let k = kind_at(ts, i);
    if k == TokenType::Minus || k == TokenType::Bang {
        lemma_unary_bounds(ts, i + 1);
    } else {
        lemma_primary_bounds(ts, i);
    }
}

pub proof fn lemma_factor_more_bounds(ts: Seq<TokenModel>, i: int, acc: ExpressionModel)
    requires
        eof_last(ts),
        0 <= i <= ts.len() - 1,
    ensures
        spec_factor_more(ts, i, acc) matches Ok((e, j)) ==> i <= j <= ts.len() - 1,
    decreases ts.len() - i, 3int,
{
    let k = kind_at(ts, i);
    if factor_op(k) {
        lemma_unary_bounds(ts, i + 1);
        match spec_unary(ts, i + 1) {
            Ok((rhs, j)) => {
                assert(progress(ts.len() as int, i, j) == j);
                lemma_factor_more_bounds(
                    ts,
                    j,
                    ExpressionModel::Binary { lhs: Box::new(acc), operator: k, rhs: Box::new(rhs) },
                );
            },
            Err(_) => {},
        }
    }
}

pub proof fn lemma_factor_bounds(ts: Seq<TokenModel>, i: int)
    requires
        eof_last(ts),
        0 <= i <= ts.len(),
    ensures
        spec_factor(ts, i) matches Ok((e, j)) ==> i < j <= ts.len() - 1,
    decreases ts.len() - i, 4int,
{
    lemma_unary_bounds(ts, i);
    match spec_unary(ts, i) {
        Ok((e0, j)) => {
            assert(progress(ts.len() as int, i, j) == j);
            lemma_factor_more_bounds(ts, j, e0);
        },
        Err(_) => {},
    }
}

pub proof fn lemma_term_more_bounds(ts: Seq<TokenModel>, i: int, acc: ExpressionModel)
    requires
        eof_last(ts),
        0 <= i <= ts.len() - 1,
    ensures
        spec_term_more(ts, i, acc) matches Ok((e, j)) ==> i <= j <= ts.len() - 1,
    decreases ts.len() - i, 5int,
{
    let k = kind_at(ts, i);
    if term_op(k) {
        lemma_factor_bounds(ts, i + 1);
        match spec_factor(ts, i + 1) {
            Ok((rhs, j)) => {
                assert(progress(ts.len() as int, i, j) == j);
                lemma_term_more_bounds(
                    ts,
                    j,
                    ExpressionModel::Binary { lhs: Box::new(acc), operator: k, rhs: Box::new(rhs) },
                );
            },
            Err(_) => {},
        }
    }
}

pub proof fn lemma_term_bounds(ts: Seq<TokenModel>, i: int)
    requires
        eof_last(ts),
        0 <= i <= ts.len(),
    ensures
        spec_term(ts, i) matches Ok((e, j)) ==> i < j <= ts.len() - 1,
    decreases ts.len() - i, 6int,
{
    lemma_factor_bounds(ts, i);
    match spec_factor(ts, i) {
        Ok((e0, j)) => {
            assert(progress(ts.len() as int, i, j) == j);
            lemma_term_more_bounds(ts, j, e0);
        },
        Err(_) => {},
    }
}

pub proof fn lemma_comparison_more_bounds(ts: Seq<TokenModel>, i: int, acc: ExpressionModel)
    requires
        eof_last(ts),
        0 <= i <= ts.len() - 1,
    ensures
        spec_comparison_more(ts, i, acc) matches Ok((e, j)) ==> i <= j <= ts.len() - 1,
    decreases ts.len() - i, 7int,
{
    let k = kind_at(ts, i);
    if comparison_op(k) {
        lemma_term_bounds(ts, i + 1);
        match spec_term(ts, i + 1) {
            Ok((rhs, j)) => {
                assert(progress(ts.len() as int, i, j) == j);
                lemma_comparison_more_bounds(
                    ts,
                    j,
                    ExpressionModel::Binary { lhs: Box::new(acc), operator: k, rhs: Box::new(rhs) },
                );
            },
            Err(_) => {},
        }
    }
}

pub proof fn lemma_comparison_bounds(ts: Seq<TokenModel>, i: int)
    requires
        eof_last(ts),
        0 <= i <= ts.len(),
    ensures
        spec_comparison(ts, i) matches Ok((e, j)) ==> i < j <= ts.len() - 1,
    decreases ts.len() - i, 8int,
{
    lemma_term_bounds(ts, i);
    match spec_term(ts, i) {
        Ok((e0, j)) => {
            assert(progress(ts.len() as int, i, j) == j);
            lemma_comparison_more_bounds(ts, j, e0);
        },
        Err(_) => {},
    }
}

pub proof fn lemma_equality_more_bounds(ts: Seq<TokenModel>, i: int, acc: ExpressionModel)
    requires
        eof_last(ts),
        0 <= i <= ts.len() - 1,
    ensures
        spec_equality_more(ts, i, acc) matches Ok((e, j)) ==> i <= j <= ts.len() - 1,
    decreases ts.len() - i, 9int,
{
    let k = kind_at(ts, i);
    if equality_op(k) {
        lemma_comparison_bounds(ts, i + 1);
        match spec_comparison(ts, i + 1) {
            Ok((rhs, j)) => {
                assert(progress(ts.len() as int, i, j) == j);
                lemma_equality_more_bounds(
                    ts,
                    j,
                    ExpressionModel::Binary { lhs: Box::new(acc), operator: k, rhs: Box::new(rhs) },
                );
            },
            Err(_) => {},
        }
    }
}

pub proof fn lemma_equality_bounds(ts: Seq<TokenModel>, i: int)
    requires
        eof_last(ts),
        0 <= i <= ts.len(),
    ensures
        spec_equality(ts, i) matches Ok((e, j)) ==> i < j <= ts.len() - 1,
    decreases ts.len() - i, 10int,
{
    lemma_comparison_bounds(ts, i);
    match spec_comparison(ts, i) {
        Ok((e0, j)) => {
            assert(progress(ts.len() as int, i, j) == j);
            lemma_equality_more_bounds(ts, j, e0);
        },
        Err(_) => {},
    }
}

pub proof fn lemma_expression_bounds(ts: Seq<TokenModel>, i: int)
    requires
        eof_last(ts),
        0 <= i <= ts.len(),
    ensures
        spec_expression(ts, i) matches Ok((e, j)) ==> i < j <= ts.len() - 1,
    decreases ts.len() - i, 11int,
{
    lemma_equality_bounds(ts, i);
}

pub proof fn lemma_assignment_bounds(ts: Seq<TokenModel>, i: int)
    requires
        eof_last(ts),
        0 <= i <= ts.len(),
    ensures
        spec_assignment(ts, i) matches Ok((e, j)) ==> i < j <= ts.len() - 1,
    decreases ts.len() - i, 12int,
{
    if kind_at(ts, i) == TokenType::Identifier && kind_at(ts, i + 1) == TokenType::Equal {
        lemma_expression_bounds(ts, i + 2);
    }
}

pub proof fn lemma_declaration_bounds(ts: Seq<TokenModel>, i: int)
    requires
        eof_last(ts),
        0 <= i <= ts.len(),
    ensures
        spec_declaration(ts, i) matches Ok((st, j)) ==> i < j <= ts.len() - 1,
    decreases ts.len() - i, 13int,
{
    let i1 = if i < ts.len() { i + 1 } else { i };
    lemma_assignment_bounds(ts, i1);
}

#[verifier::rlimit(60)]
pub proof fn lemma_for_bounds(ts: Seq<TokenModel>, i: int)
    requires
        eof_last(ts),
        0 <= i <= ts.len(),
    ensures
        spec_for_statement(ts, i) matches Ok((st, j)) ==> i < j <= ts.len() - 1,
    decreases ts.len() - i, 13int,
{
    let n = ts.len() as int;
    if kind_at(ts, i) == TokenType::For {
        let i1 = i + 1;
        if kind_at(ts, i1) == TokenType::Identifier {
            let i2 = i1 + 1;
            if kind_at(ts, i2) == TokenType::In {
                let i3 = i2 + 1;
                lemma_expression_bounds(ts, i3);
                match spec_expression(ts, i3) {
                    Ok((begin, j1)) => {
                        if kind_at(ts, j1) == TokenType::Comma {
                            let j2 = j1 + 1;
                            assert(progress(n, i, j2) == j2);
                            lemma_expression_bounds(ts, j2);
                            match spec_expression(ts, j2) {
                                Ok((end, j3)) => {
                                    if kind_at(ts, j3) == TokenType::LeftBrace {
                                        let j4 = j3 + 1;
                                        assert(progress(n, i, j4) == j4);
                                        lemma_block_bounds(ts, j4);
                                    }
                                },
                                Err(_) => {},
                            }
                        }
                    },
                    Err(_) => {},
                }
            }
        }
    }
}

#[verifier::rlimit(60)]
pub proof fn lemma_while_bounds(ts: Seq<TokenModel>, i: int)
    requires
        eof_last(ts),
        0 <= i <= ts.len(),
    ensures
        spec_while_statement(ts, i) matches Ok((st, j)) ==> i < j <= ts.len() - 1,
    decreases ts.len() - i, 13int,
{
    let n = ts.len() as int;
    if kind_at(ts, i) == TokenType::While {
        lemma_expression_bounds(ts, i + 1);
        match spec_expression(ts, i + 1) {
            Ok((cond, j1)) => {
                if kind_at(ts, j1) == TokenType::LeftBrace {
                    let j2 = j1 + 1;
                    assert(progress(n, i, j2) == j2);
                    lemma_block_bounds(ts, j2);
                }
            },
            Err(_) => {},
        }
    }
}

#[verifier::rlimit(100)]
pub proof fn lemma_statement_bounds(ts: Seq<TokenModel>, i: int)
    requires
        eof_last(ts),
        0 <= i <= ts.len(),
    ensures
        spec_statement(ts, i) matches Ok((st, j)) ==> i < j <= ts.len() - 1,
    decreases ts.len() - i, 14int,
{
    let k = kind_at(ts, i);
    if k == TokenType::Let {
        lemma_declaration_bounds(ts, i);
    } else if k == TokenType::Identifier {
        lemma_assignment_bounds(ts, i);
    } else if k == TokenType::For {
        lemma_for_bounds(ts, i);
    } else if k == TokenType::While {
        lemma_while_bounds(ts, i);
    } else {
        lemma_expression_bounds(ts, i);
    }
}

pub proof fn lemma_block_bounds(ts: Seq<TokenModel>, i: int)
    requires
        eof_last(ts),
        0 <= i <= ts.len(),
    ensures
        spec_block(ts, i) matches Ok((ss, j)) ==> i < j <= ts.len() - 1,
    decreases ts.len() - i, 15int,
{
    let k = kind_at(ts, i);
    if k == TokenType::RightBrace || k == TokenType::EOF {
    } else {
        lemma_statement_bounds(ts, i);
        match spec_statement(ts, i) {
            Ok((st, j)) => {
                assert(progress(ts.len() as int, i, j) == j);
                lemma_block_bounds(ts, j);
            },
            Err(_) => {},
        }
    }
}

#[verifier::rlimit(60)]
pub proof fn lemma_program_bounds(ts: Seq<TokenModel>, i: int)
    requires
        eof_last(ts),
        0 <= i <= ts.len() - 1,
    ensures
        spec_program(ts, i) matches Ok((ss, j)) ==> i <= j <= ts.len() - 1 && kind_at(ts, j)
            == TokenType::EOF,
    decreases ts.len() - i, 16int,
{
    if kind_at(ts, i) == TokenType::EOF {
    } else {
        lemma_statement_bounds(ts, i);
        match spec_statement(ts, i) {
            Ok((st, j)) => {
                assert(progress(ts.len() as int, i, j) == j);
                lemma_program_bounds(ts, j);
            },
            Err(_) => {},
        }
    }
}

/// At an end-of-input token no expression can begin, and the error says so.
pub proof fn lemma_expression_at_eof(ts: Seq<TokenModel>, i: int)
    requires
        0 <= i <= ts.len(),
        kind_at(ts, i) == TokenType::EOF,
    ensures
        spec_expression(ts, i) == Err::<(ExpressionModel, int), ParseError>(
            ParseError::ExpectedExpression { found: TokenType::EOF },
        ),
{
    assert(spec_primary(ts, i) == Err::<(ExpressionModel, int), ParseError>(
        ParseError::ExpectedExpression { found: TokenType::EOF },
    ));
    assert(spec_unary(ts, i) == spec_primary(ts, i));
    assert(spec_factor(ts, i) == spec_unary(ts, i));
    assert(spec_term(ts, i) == spec_factor(ts, i));
    assert(spec_comparison(ts, i) == spec_term(ts, i));
    assert(spec_equality(ts, i) == spec_comparison(ts, i));
}

/// The cursor after the bounded advance: one step forward, except at the
/// last token, where it stays.
pub open spec fn advanced(ts: Seq<TokenModel>, i: int) -> int {
    if i + 1 < ts.len() {
        i + 1
    } else {
        i
    }
}

/// The parser: the token sequence and a single forward-moving cursor.
pub struct Parser {
    tokens: Vec<Token>,
    current_index: usize,
}

impl Parser {
    /// The token models of the parser's token sequence.
    pub closed spec fn toks(&self) -> Seq<TokenModel> {
        views(self.tokens@)
    }

    /// The cursor position.
    pub closed spec fn idx(&self) -> int {
        self.current_index as int
    }

    /// The cursor is inside the sequence (or the sequence is empty).
    pub open spec fn cursor_ok(&self) -> bool {
        self.idx() < self.toks().len() || (self.toks().len() == 0 && self.idx() == 0)
    }

    /// The input is a token sequence as the tokenizer produces it: it ends
    /// with an end-of-input token, and every identifier, number, string and
    /// boolean token carries its lexeme.
    pub open spec fn input_ok(&self) -> bool {
        &&& eof_last(self.toks())
        &&& forall|k: int| 0 <= k < self.toks().len() ==> token_has_payload(#[trigger] self.toks()[k])
    }

    pub open spec fn wf(&self) -> bool {
        self.cursor_ok() && self.input_ok()
    }

    /// A parser over the given tokens, with the cursor at the start.
    pub fn new(tokens: Vec<Token>) -> (p: Parser)
        ensures
            p.toks() == views(tokens@),
            p.idx() == 0,
            p.cursor_ok(),
    {
        Parser { tokens: tokens, current_index: 0 }
    }

    /// The token under the cursor.
    fn current(&self) -> (t: &Token)
        requires
            self.cursor_ok(),
            self.toks().len() > 0,
        ensures
            t@ == self.toks()[self.idx()],
            t.token_type == kind_at(self.toks(), self.idx()),
    {
        &self.tokens[self.current_index]
    }

    /// The token after the cursor, if any.
    fn peek(&self) -> (t: Option<&Token>)
        requires
            self.cursor_ok(),
        ensures
            match t {
                Option::Some(tk) => self.idx() + 1 < self.toks().len() && tk@ == self.toks()[self.idx()
                    + 1],
                Option::None => self.idx() + 1 >= self.toks().len(),
            },
    {
        let n = self.tokens.len();
        proof {
            assert(self.toks().len() == self.tokens@.len());
        }
        if self.current_index < n && n - self.current_index > 1 {
            Option::Some(&self.tokens[self.current_index + 1])
        } else {
            Option::None
        }
    }

    /// Move the cursor forward by one; at the last token this does nothing.
    fn advance(&mut self)
        requires
            old(self).cursor_ok(),
        ensures
            final(self).toks() == old(self).toks(),
            final(self).idx() == advanced(old(self).toks(), old(self).idx()),
            final(self).cursor_ok(),
    {
        let n = self.tokens.len();
        proof {
            assert(self.toks().len() == self.tokens@.len());
        }
        if self.peek().is_some() {
            self.current_index += 1;
        }
    }

    /// Demand that the cursor's token has the given kind: advance past it,
    /// or report the expected and the found kind.
    fn expect(&mut self, token_type: TokenType) -> (r: Result<(), ParseError>)
        requires
            old(self).cursor_ok(),
            old(self).toks().len() > 0,
        ensures
            final(self).toks() == old(self).toks(),
            final(self).cursor_ok(),
            match expect_kind(old(self).toks(), old(self).idx(), token_type) {
                Ok(j) => r is Ok && final(self).idx() == (if j < old(self).toks().len() {
                    j
                } else {
                    j - 1
                }),
                Err(e) => r == Err::<(), ParseError>(e) && final(self).idx() == old(self).idx(),
            },
    {
        let k = self.current().token_type;
        if k == token_type {
            self.advance();
            Ok(())
        } else {
            Err(ParseError::UnexpectedToken { expected: token_type, found: k })
        }
    }

    /// The lexeme of the token under the cursor.
    fn current_text(&self) -> (s: String)
        requires
            self.cursor_ok(),
            self.toks().len() > 0,
            self.toks()[self.idx()].text is Some,
        ensures
            s@ == text_at(self.toks(), self.idx()),
    {
        self.tokens[self.current_index].token_name.as_ref().unwrap().clone()
    }
}

impl Parser {
    /// Whether the cursor's token starts a unary operator.
    fn at_unary_op(&self) -> (b: bool)
        requires
            self.cursor_ok(),
            self.toks().len() > 0,
        ensures
            b == (kind_at(self.toks(), self.idx()) == TokenType::Minus || kind_at(
                self.toks(),
                self.idx(),
            ) == TokenType::Bang),
    {
        let k = self.current().token_type;
        k == TokenType::Minus || k == TokenType::Bang
    }

    /// Whether the cursor's token is a factor-level operator.
    fn at_factor_op(&self) -> (b: bool)
        requires
            self.cursor_ok(),
            self.toks().len() > 0,
        ensures
            b == factor_op(kind_at(self.toks(), self.idx())),
    {
        let k = self.current().token_type;
        k == TokenType::Asterisk || k == TokenType::Slash || k == TokenType::Percent
    }

    /// Whether the cursor's token is a term-level operator.
    fn at_term_op(&self) -> (b: bool)
        requires
            self.cursor_ok(),
            self.toks().len() > 0,
        ensures
            b == term_op(kind_at(self.toks(), self.idx())),
    {
        let k = self.current().token_type;
        k == TokenType::Plus || k == TokenType::Minus
    }

    /// Whether the cursor's token is a comparison operator.
    fn at_comparison_op(&self) -> (b: bool)
        requires
            self.cursor_ok(),
            self.toks().len() > 0,
        ensures
            b == comparison_op(kind_at(self.toks(), self.idx())),
    {
        let k = self.current().token_type;
        k == TokenType::Greater || k == TokenType::GreaterEqual || k == TokenType::Less || k
            == TokenType::LessEqual
    }

    /// Whether the cursor's token is an equality operator.
    fn at_equality_op(&self) -> (b: bool)
        requires
            self.cursor_ok(),
            self.toks().len() > 0,
        ensures
            b == equality_op(kind_at(self.toks(), self.idx())),
    {
        let k = self.current().token_type;
        k == TokenType::BangEqual || k == TokenType::EqualEqual
    }

    /// primary = NUMBER | IDENT | STRING | BOOLEAN | '(' expression ')'
    fn primary(&mut self) -> (r: Result<Expression, ParseError>)
        requires
            old(self).wf(),
        ensures
            final(self).wf(),
            final(self).toks() == old(self).toks(),
            match spec_primary(old(self).toks(), old(self).idx()) {
                Ok((e, j)) => r matches Ok(ex) && expr_view(ex) == e && final(self).idx() == j,
                Err(pe) => r == Err::<Expression, ParseError>(pe),
            },
        decreases old(self).toks().len() - old(self).idx(), 1int,
    {
        let ghost ts = self.toks();
        let ghost i0 = self.idx();
        proof {
            assert(token_has_payload(ts[i0]));
        }
        let k = self.current().token_type;
        if k == TokenType::Number {
            let text = self.current_text();
            self.advance();
            Ok(Expression::Literal(Literal::Number(text)))
        } else if k == TokenType::Identifier {
            let text = self.current_text();
            self.advance();
            Ok(Expression::Variable(text))
        } else if k == TokenType::String {
            let text = self.current_text();
            self.advance();
            Ok(Expression::Literal(Literal::String(text)))
        } else if k == TokenType::Boolean {
            let text = self.current_text();
            let value = crate::lexer::str_eq(text.as_str(), "true");
            self.advance();
            Ok(Expression::Literal(Literal::Boolean(value)))
        } else if k == TokenType::LeftParenthesis {
            self.advance();
            let inner = match self.expression() {
                Ok(e) => e,
                Err(pe) => {
                    return Err(pe);
                },
            };
            match self.expect(TokenType::RightParenthesis) {
                Ok(_) => {},
                Err(pe) => {
                    return Err(pe);
                },
            }
            Ok(Expression::Grouping(Box::new(inner)))
        } else {
            Err(ParseError::ExpectedExpression { found: k })
        }
    }

    /// unary = { '-' | '!' } primary
    fn unary(&mut self) -> (r: Result<Expression, ParseError>)
        requires
            old(self).wf(),
        ensures
            final(self).wf(),
            final(self).toks() == old(self).toks(),
            match spec_unary(old(self).toks(), old(self).idx()) {
                Ok((e, j)) => r matches Ok(ex) && expr_view(ex) == e && final(self).idx() == j,
                Err(pe) => r == Err::<Expression, ParseError>(pe),
            },
        decreases old(self).toks().len() - old(self).idx(), 2int,
    {
        if self.at_unary_op() {
            let operator = self.current().token_type;
            self.advance();
            let rhs = match self.unary() {
                Ok(e) => e,
                Err(pe) => {
                    return Err(pe);
                },
            };
            Ok(Expression::Unary { operator: operator, rhs: Box::new(rhs) })
        } else {
            self.primary()
        }
    }

    /// factor = unary { ('*' | '/' | '%') unary }, left-associative
    #[verifier::rlimit(60)]
    fn factor(&mut self) -> (r: Result<Expression, ParseError>)
        requires
            old(self).wf(),
        ensures
            final(self).wf(),
            final(self).toks() == old(self).toks(),
            match spec_factor(old(self).toks(), old(self).idx()) {
                Ok((e, j)) => r matches Ok(ex) && expr_view(ex) == e && final(self).idx() == j,
                Err(pe) => r == Err::<Expression, ParseError>(pe),
            },
        decreases old(self).toks().len() - old(self).idx(), 4int,
    {
        let ghost ts = self.toks();
        let ghost i0 = self.idx();
        let mut expression = match self.unary() {
            Ok(e) => e,
            Err(pe) => {
                return Err(pe);
            },
        };
        proof {
            lemma_unary_bounds(ts, i0);
        }
        while self.at_factor_op()
            invariant
                self.wf(),
                self.toks() == ts,
                ts == old(self).toks(),
                i0 == old(self).idx(),
                i0 <= self.idx() <= ts.len() - 1,
                0 <= i0,
                match spec_factor_more(ts, self.idx(), expr_view(expression)) {
                    Ok((e, j)) => spec_factor(ts, i0) == Ok::<(ExpressionModel, int), ParseError>(
                        (e, j),
                    ),
                    Err(pe) => spec_factor(ts, i0) == Err::<(ExpressionModel, int), ParseError>(pe),
                },
            decreases ts.len() - self.idx(), 3int,
        {
            let operator = self.current().token_type;
            let ghost ib = self.idx();
            proof {
                assert(ib < ts.len() - 1);
            }
            self.advance();
            proof {
                assert(self.idx() == ib + 1);
            }
            let rhs = match self.unary() {
                Ok(e) => e,
                Err(pe) => {
                    return Err(pe);
                },
            };
            proof {
                lemma_unary_bounds(ts, ib + 1);
            }
            expression = Expression::Binary {
                lhs: Box::new(expression),
                operator: operator,
                rhs: Box::new(rhs),
            };
        }
        Ok(expression)
    }

    /// term = factor { ('+' | '-') factor }, left-associative
    #[verifier::rlimit(60)]
    fn term(&mut self) -> (r: Result<Expression, ParseError>)
        requires
            old(self).wf(),
        ensures
            final(self).wf(),
            final(self).toks() == old(self).toks(),
            match spec_term(old(self).toks(), old(self).idx()) {
                Ok((e, j)) => r matches Ok(ex) && expr_view(ex) == e && final(self).idx() == j,
                Err(pe) => r == Err::<Expression, ParseError>(pe),
            },
        decreases old(self).toks().len() - old(self).idx(), 6int,
    {
        let ghost ts = self.toks();
        let ghost i0 = self.idx();
        let mut expression = match self.factor() {
            Ok(e) => e,
            Err(pe) => {
                return Err(pe);
            },
        };
        proof {
            lemma_factor_bounds(ts, i0);
        }
        while self.at_term_op()
            invariant
                self.wf(),
                self.toks() == ts,
                ts == old(self).toks(),
                i0 == old(self).idx(),
                i0 <= self.idx() <= ts.len() - 1,
                0 <= i0,
                match spec_term_more(ts, self.idx(), expr_view(expression)) {
                    Ok((e, j)) => spec_term(ts, i0) == Ok::<(ExpressionModel, int), ParseError>(
                        (e, j),
                    ),
                    Err(pe) => spec_term(ts, i0) == Err::<(ExpressionModel, int), ParseError>(pe),
                },
            decreases ts.len() - self.idx(), 3int,
        {
            let operator = self.current().token_type;
            let ghost ib = self.idx();
            proof {
                assert(ib < ts.len() - 1);
            }
            self.advance();
            proof {
                assert(self.idx() == ib + 1);
            }
            let rhs = match self.factor() {
                Ok(e) => e,
                Err(pe) => {
                    return Err(pe);
                },
            };
            proof {
                lemma_factor_bounds(ts, ib + 1);
            }
            expression = Expression::Binary {
                lhs: Box::new(expression),
                operator: operator,
                rhs: Box::new(rhs),
            };
        }
        Ok(expression)
    }

    /// comparison = term { ('>' | '>=' | '<' | '<=') term }, left-associative
    #[verifier::rlimit(60)]
    fn comparison(&mut self) -> (r: Result<Expression, ParseError>)
        requires
            old(self).wf(),
        ensures
            final(self).wf(),
            final(self).toks() == old(self).toks(),
            match spec_comparison(old(self).toks(), old(self).idx()) {
                Ok((e, j)) => r matches Ok(ex) && expr_view(ex) == e && final(self).idx() == j,
                Err(pe) => r == Err::<Expression, ParseError>(pe),
            },
        decreases old(self).toks().len() - old(self).idx(), 8int,
    {
        let ghost ts = self.toks();
        let ghost i0 = self.idx();
        let mut expression = match self.term() {
            Ok(e) => e,
            Err(pe) => {
                return Err(pe);
            },
        };
        proof {
            lemma_term_bounds(ts, i0);
        }
        while self.at_comparison_op()
            invariant
                self.wf(),
                self.toks() == ts,
                ts == old(self).toks(),
                i0 == old(self).idx(),
                i0 <= self.idx() <= ts.len() - 1,
                0 <= i0,
                match spec_comparison_more(ts, self.idx(), expr_view(expression)) {
                    Ok((e, j)) => spec_comparison(ts, i0) == Ok::<
                        (ExpressionModel, int),
                        ParseError,
                    >((e, j)),
                    Err(pe) => spec_comparison(ts, i0) == Err::<
                        (ExpressionModel, int),
                        ParseError,
                    >(pe),
                },
            decreases ts.len() - self.idx(), 3int,
        {
            let operator = self.current().token_type;
            let ghost ib = self.idx();
            proof {
                assert(ib < ts.len() - 1);
            }
            self.advance();
            proof {
                assert(self.idx() == ib + 1);
            }
            let rhs = match self.term() {
                Ok(e) => e,
                Err(pe) => {
                    return Err(pe);
                },
            };
            proof {
                lemma_term_bounds(ts, ib + 1);
            }
            expression = Expression::Binary {
                lhs: Box::new(expression),
                operator: operator,
                rhs: Box::new(rhs),
            };
        }
        Ok(expression)
    }

    /// equality = comparison { ('!=' | '==') comparison }, left-associative
    #[verifier::rlimit(60)]
    fn equality(&mut self) -> (r: Result<Expression, ParseError>)
        requires
            old(self).wf(),
        ensures
            final(self).wf(),
            final(self).toks() == old(self).toks(),
            match spec_equality(old(self).toks(), old(self).idx()) {
                Ok((e, j)) => r matches Ok(ex) && expr_view(ex) == e && final(self).idx() == j,
                Err(pe) => r == Err::<Expression, ParseError>(pe),
            },
        decreases old(self).toks().len() - old(self).idx(), 10int,
    {
        let ghost ts = self.toks();
        let ghost i0 = self.idx();
        let mut expression = match self.comparison() {
            Ok(e) => e,
            Err(pe) => {
                return Err(pe);
            },
        };
        proof {
            lemma_comparison_bounds(ts, i0);
        }
        while self.at_equality_op()
            invariant
                self.wf(),
                self.toks() == ts,
                ts == old(self).toks(),
                i0 == old(self).idx(),
                i0 <= self.idx() <= ts.len() - 1,
                0 <= i0,
                match spec_equality_more(ts, self.idx(), expr_view(expression)) {
                    Ok((e, j)) => spec_equality(ts, i0) == Ok::<(ExpressionModel, int), ParseError>(
                        (e, j),
                    ),
                    Err(pe) => spec_equality(ts, i0) == Err::<(ExpressionModel, int), ParseError>(
                        pe,
                    ),
                },
            decreases ts.len() - self.idx(), 3int,
        {
            let operator = self.current().token_type;
            let ghost ib = self.idx();
            proof {
                assert(ib < ts.len() - 1);
            }
            self.advance();
            proof {
                assert(self.idx() == ib + 1);
            }
            let rhs = match self.comparison() {
                Ok(e) => e,
                Err(pe) => {
                    return Err(pe);
                },
            };
            proof {
                lemma_comparison_bounds(ts, ib + 1);
            }
            expression = Expression::Binary {
                lhs: Box::new(expression),
                operator: operator,
                rhs: Box::new(rhs),
            };
        }
        Ok(expression)
    }

    /// Whether the cursor's token is the closing brace of a body.
    fn at_right_brace(&self) -> (b: bool)
        requires
            self.cursor_ok(),
            self.toks().len() > 0,
        ensures
            b == (kind_at(self.toks(), self.idx()) == TokenType::RightBrace),
    {
        let k = self.current().token_type;
        k == TokenType::RightBrace
    }

    /// Whether the cursor stands on the end-of-input token.
    fn at_eof(&self) -> (b: bool)
        requires
            self.cursor_ok(),
            self.toks().len() > 0,
        ensures
            b == (kind_at(self.toks(), self.idx()) == TokenType::EOF),
    {
        let k = self.current().token_type;
        k == TokenType::EOF
    }

    /// expression = equality
    fn expression(&mut self) -> (r: Result<Expression, ParseError>)
        requires
            old(self).wf(),
        ensures
            final(self).wf(),
            final(self).toks() == old(self).toks(),
            match spec_expression(old(self).toks(), old(self).idx()) {
                Ok((e, j)) => r matches Ok(ex) && expr_view(ex) == e && final(self).idx() == j,
                Err(pe) => r == Err::<Expression, ParseError>(pe),
            },
        decreases old(self).toks().len() - old(self).idx(), 11int,
    {
        self.equality()
    }

    /// assignment = IDENT '=' expression; yields the right-hand expression.
    fn assignment(&mut self) -> (r: Result<Expression, ParseError>)
        requires
            old(self).wf(),
        ensures
            final(self).wf(),
            final(self).toks() == old(self).toks(),
            match spec_assignment(old(self).toks(), old(self).idx()) {
                Ok((e, j)) => r matches Ok(ex) && expr_view(ex) == e && final(self).idx() == j,
                Err(pe) => r == Err::<Expression, ParseError>(pe),
            },
        decreases old(self).toks().len() - old(self).idx(), 12int,
    {
        let ghost ts = self.toks();
        let ghost i0 = self.idx();
        match self.expect(TokenType::Identifier) {
            Ok(_) => {},
            Err(pe) => {
                return Err(pe);
            },
        }
        proof {
            assert(self.idx() == i0 + 1);
        }
        match self.expect(TokenType::Equal) {
            Ok(_) => {},
            Err(pe) => {
                return Err(pe);
            },
        }
        proof {
            assert(self.idx() == i0 + 2);
        }
        self.expression()
    }

    /// declaration = 'let' IDENT '=' expression. The bound name is captured
    /// before the initializer is parsed.
    fn declaration(&mut self) -> (r: Result<Statement, ParseError>)
        requires
            old(self).wf(),
        ensures
            final(self).wf(),
            final(self).toks() == old(self).toks(),
            match spec_declaration(old(self).toks(), old(self).idx()) {
                Ok((st, j)) => r matches Ok(s) && stmt_view(s) == st && final(self).idx() == j,
                Err(pe) => r == Err::<Statement, ParseError>(pe),
            },
        decreases old(self).toks().len() - old(self).idx(), 13int,
    {
        let ghost ts = self.toks();
        let ghost i0 = self.idx();
        self.advance();
        let ghost i1 = self.idx();
        let k = self.current().token_type;
        if k != TokenType::Identifier {
            return Err(ParseError::UnexpectedToken { expected: TokenType::Identifier, found: k });
        }
        proof {
            assert(i1 == i0 + 1);
            assert(token_has_payload(ts[i1]));
        }
        let name = self.current_text();
        let value = match self.assignment() {
            Ok(e) => e,
            Err(pe) => {
                return Err(pe);
            },
        };
        Ok(Statement::Declaration { variable_name: name, expression: value })
    }

    /// ranged = 'for' IDENT 'in' expression ',' expression '{' { statement } '}'
    #[verifier::rlimit(60)]
    fn for_statement(&mut self) -> (r: Result<Statement, ParseError>)
        requires
            old(self).wf(),
        ensures
            final(self).wf(),
            final(self).toks() == old(self).toks(),
            match spec_for_statement(old(self).toks(), old(self).idx()) {
                Ok((st, j)) => r matches Ok(s) && stmt_view(s) == st && final(self).idx() == j,
                Err(pe) => r == Err::<Statement, ParseError>(pe),
            },
        decreases old(self).toks().len() - old(self).idx(), 13int,
    {
        let ghost ts = self.toks();
        let ghost i0 = self.idx();
        let ghost n = ts.len() as int;
        let k = self.current().token_type;
        if k != TokenType::For {
            return Err(ParseError::UnexpectedToken { expected: TokenType::For, found: k });
        }
        self.advance();
        proof {
            assert(self.idx() == i0 + 1);
        }
        let k2 = self.current().token_type;
        if k2 != TokenType::Identifier {
            return Err(ParseError::UnexpectedToken {
                expected: TokenType::Identifier,
                found: k2,
            });
        }
        proof {
            assert(token_has_payload(ts[i0 + 1]));
        }
        let name = self.current_text();
        self.advance();
        proof {
            assert(self.idx() == i0 + 2);
        }
        match self.expect(TokenType::In) {
            Ok(_) => {},
            Err(pe) => {
                return Err(pe);
            },
        }
        proof {
            assert(self.idx() == i0 + 3);
        }
        let begin = match self.expression() {
            Ok(e) => e,
            Err(pe) => {
                return Err(pe);
            },
        };
        proof {
            lemma_expression_bounds(ts, i0 + 3);
        }
        match self.expect(TokenType::Comma) {
            Ok(_) => {},
            Err(pe) => {
                return Err(pe);
            },
        }
        proof {
            assert(progress(n, i0, self.idx()) == self.idx());
        }
        let ghost jb = self.idx();
        let end = match self.expression() {
            Ok(e) => e,
            Err(pe) => {
                return Err(pe);
            },
        };
        proof {
            lemma_expression_bounds(ts, jb);
        }
        match self.expect(TokenType::LeftBrace) {
            Ok(_) => {},
            Err(pe) => {
                return Err(pe);
            },
        }
        proof {
            assert(progress(n, i0, self.idx()) == self.idx());
        }
        let body = match self.block() {
            Ok(b) => b,
            Err(pe) => {
                return Err(pe);
            },
        };
        Ok(Statement::Loop {
            loop_type: TokenType::For,
            condition: Option::None,
            variable: Option::Some(name),
            range_begin: Option::Some(Box::new(begin)),
            range_end: Option::Some(Box::new(end)),
            body: body,
        })
    }

    /// conditioned = 'while' expression '{' { statement } '}'
    #[verifier::rlimit(60)]
    fn while_statement(&mut self) -> (r: Result<Statement, ParseError>)
        requires
            old(self).wf(),
        ensures
            final(self).wf(),
            final(self).toks() == old(self).toks(),
            match spec_while_statement(old(self).toks(), old(self).idx()) {
                Ok((st, j)) => r matches Ok(s) && stmt_view(s) == st && final(self).idx() == j,
                Err(pe) => r == Err::<Statement, ParseError>(pe),
            },
        decreases old(self).toks().len() - old(self).idx(), 13int,
    {
        let ghost ts = self.toks();
        let ghost i0 = self.idx();
        let ghost n = ts.len() as int;
        let k = self.current().token_type;
        if k != TokenType::While {
            return Err(ParseError::UnexpectedToken { expected: TokenType::While, found: k });
        }
        self.advance();
        proof {
            assert(self.idx() == i0 + 1);
        }
        let cond = match self.expression() {
            Ok(e) => e,
            Err(pe) => {
                return Err(pe);
            },
        };
        proof {
            lemma_expression_bounds(ts, i0 + 1);
        }
        match self.expect(TokenType::LeftBrace) {
            Ok(_) => {},
            Err(pe) => {
                return Err(pe);
            },
        }
        proof {
            assert(progress(n, i0, self.idx()) == self.idx());
        }
        let body = match self.block() {
            Ok(b) => b,
            Err(pe) => {
                return Err(pe);
            },
        };
        Ok(Statement::Loop {
            loop_type: TokenType::While,
            condition: Option::Some(Box::new(cond)),
            variable: Option::None,
            range_begin: Option::None,
            range_end: Option::None,
            body: body,
        })
    }

    /// statement = (declaration ';') | (assignment ';') | (expression ';') | loop
    #[verifier::rlimit(100)]
    fn statement(&mut self) -> (r: Result<Statement, ParseError>)
        requires
            old(self).wf(),
        ensures
            final(self).wf(),
            final(self).toks() == old(self).toks(),
            match spec_statement(old(self).toks(), old(self).idx()) {
                Ok((st, j)) => r matches Ok(s) && stmt_view(s) == st && final(self).idx() == j,
                Err(pe) => r == Err::<Statement, ParseError>(pe),
            },
        decreases old(self).toks().len() - old(self).idx(), 14int,
    {
        let ghost ts = self.toks();
        let ghost i0 = self.idx();
        let ghost n = ts.len() as int;
        let k = self.current().token_type;
        if k == TokenType::Let {
            let st = match self.declaration() {
                Ok(s) => s,
                Err(pe) => {
                    return Err(pe);
                },
            };
            proof {
                lemma_declaration_bounds(ts, i0);
            }
            match self.expect(TokenType::Semicolon) {
                Ok(_) => {},
                Err(pe) => {
                    return Err(pe);
                },
            }
            Ok(st)
        } else if k == TokenType::Identifier {
            proof {
                assert(token_has_payload(ts[i0]));
            }
            let name = self.current_text();
            let expr = match self.assignment() {
                Ok(e) => e,
                Err(pe) => {
                    return Err(pe);
                },
            };
            proof {
                lemma_assignment_bounds(ts, i0);
            }
            match self.expect(TokenType::Semicolon) {
                Ok(_) => {},
                Err(pe) => {
                    return Err(pe);
                },
            }
            Ok(Statement::Assignment { variable_name: name, expression: expr })
        } else if k == TokenType::For {
            self.for_statement()
        } else if k == TokenType::While {
            self.while_statement()
        } else {
            let expr = match self.expression() {
                Ok(e) => e,
                Err(pe) => {
                    return Err(pe);
                },
            };
            proof {
                lemma_expression_bounds(ts, i0);
            }
            match self.expect(TokenType::Semicolon) {
                Ok(_) => {},
                Err(pe) => {
                    return Err(pe);
                },
            }
            Ok(Statement::Expression(expr))
        }
    }

    /// A loop body: statements until the closing brace, which is consumed.
    #[verifier::rlimit(60)]
    fn block(&mut self) -> (r: Result<Vec<Box<Statement>>, ParseError>)
        requires
            old(self).wf(),
        ensures
            final(self).wf(),
            final(self).toks() == old(self).toks(),
            match spec_block(old(self).toks(), old(self).idx()) {
                Ok((ss, j)) => r matches Ok(v) && stmts_view(v@) == ss && final(self).idx() == j,
                Err(pe) => r == Err::<Vec<Box<Statement>>, ParseError>(pe),
            },
        decreases old(self).toks().len() - old(self).idx(), 15int,
    {
        let ghost ts = self.toks();
        let ghost i0 = self.idx();
        let mut body: Vec<Box<Statement>> = Vec::new();
        proof {
            assert(stmts_view(body@) =~= Seq::<StatementModel>::empty());
            match spec_block(ts, i0) {
                Ok((rest, j)) => {
                    assert(stmts_view(body@) + rest =~= rest);
                },
                Err(_) => {},
            }
        }
        while !self.at_right_brace()
            invariant
                self.wf(),
                self.toks() == ts,
                ts == old(self).toks(),
                i0 == old(self).idx(),
                0 <= i0 <= self.idx() <= ts.len() - 1,
                match spec_block(ts, self.idx()) {
                    Ok((rest, j)) => spec_block(ts, i0) == Ok::<
                        (Seq<StatementModel>, int),
                        ParseError,
                    >((stmts_view(body@) + rest, j)),
                    Err(pe) => spec_block(ts, i0) == Err::<(Seq<StatementModel>, int), ParseError>(
                        pe,
                    ),
                },
            decreases ts.len() - self.idx(), 17int,
        {
            let ghost ib = self.idx();
            let st = match self.statement() {
                Ok(s) => s,
                Err(pe) => {
                    proof {
                        if kind_at(ts, ib) == TokenType::EOF {
                            lemma_expression_at_eof(ts, ib);
                        }
                    }
                    return Err(pe);
                },
            };
            proof {
                lemma_statement_bounds(ts, ib);
                assert(progress(ts.len() as int, ib, self.idx()) == self.idx());
            }
            let ghost pre = body@;
            let boxed = Box::new(st);
            proof {
                lemma_stmts_view_push(pre, boxed);
                match spec_block(ts, self.idx()) {
                    Ok((rest, j)) => {
                        assert(stmts_view(pre) + (seq![stmt_view(*boxed)] + rest) =~= stmts_view(
                            pre.push(boxed),
                        ) + rest);
                    },
                    Err(_) => {},
                }
            }
            body.push(boxed);
        }
        proof {
            assert(kind_at(ts, self.idx()) == TokenType::RightBrace);
            match spec_block(ts, self.idx()) {
                Ok((rest, j)) => {
                    assert(stmts_view(body@) + rest =~= stmts_view(body@));
                },
                Err(_) => {},
            }
        }
        self.advance();
        Ok(body)
    }

    /// program = { statement }, up to the end-of-input token.
    #[verifier::rlimit(100)]
    fn program(&mut self) -> (r: Result<Vec<Statement>, ParseError>)
        requires
            old(self).wf(),
        ensures
            final(self).wf(),
            final(self).toks() == old(self).toks(),
            match spec_program(old(self).toks(), old(self).idx()) {
                Ok((ss, j)) => r matches Ok(v) && program_view(v@) == ss && final(self).idx() == j,
                Err(pe) => r == Err::<Vec<Statement>, ParseError>(pe),
            },
        decreases old(self).toks().len() - old(self).idx(), 16int,
    {
        let ghost ts = self.toks();
        let ghost i0 = self.idx();
        let mut stmts: Vec<Statement> = Vec::new();
        proof {
            assert(program_view(stmts@) =~= Seq::<StatementModel>::empty());
            match spec_program(ts, i0) {
                Ok((rest, j)) => {
                    assert(program_view(stmts@) + rest =~= rest);
                },
                Err(_) => {},
            }
        }
        while !self.at_eof()
            invariant
                self.wf(),
                self.toks() == ts,
                ts == old(self).toks(),
                i0 == old(self).idx(),
                0 <= i0 <= self.idx() <= ts.len() - 1,
                match spec_program(ts, self.idx()) {
                    Ok((rest, j)) => spec_program(ts, i0) == Ok::<
                        (Seq<StatementModel>, int),
                        ParseError,
                    >((program_view(stmts@) + rest, j)),
                    Err(pe) => spec_program(ts, i0) == Err::<
                        (Seq<StatementModel>, int),
                        ParseError,
                    >(pe),
                },
            decreases ts.len() - self.idx(), 17int,
        {
            let ghost ib = self.idx();
            let st = match self.statement() {
                Ok(s) => s,
                Err(pe) => {
                    return Err(pe);
                },
            };
            proof {
                lemma_statement_bounds(ts, ib);
                assert(progress(ts.len() as int, ib, self.idx()) == self.idx());
            }
            let ghost pre = stmts@;
            proof {
                lemma_program_view_push(pre, st);
                match spec_program(ts, self.idx()) {
                    Ok((rest, j)) => {
                        assert(program_view(pre) + (seq![stmt_view(st)] + rest) =~= program_view(
                            pre.push(st),
                        ) + rest);
                    },
                    Err(_) => {},
                }
            }
            stmts.push(st);
        }
        proof {
            match spec_program(ts, self.idx()) {
                Ok((rest, j)) => {
                    assert(program_view(stmts@) + rest =~= program_view(stmts@));
                },
                Err(_) => {},
            }
        }
        Ok(stmts)
    }

    /// Parse the whole token sequence into the list of top-level statements,
    /// or report the first syntax error. The result is exactly what
    /// [`spec_program`] says of the tokens from the cursor on.
    pub fn parse(&mut self) -> (r: Result<Vec<Statement>, ParseError>)
        requires
            old(self).wf(),
        ensures
            final(self).wf(),
            final(self).toks() == old(self).toks(),
            match spec_program(old(self).toks(), old(self).idx()) {
                Ok((ss, j)) => r matches Ok(v) && program_view(v@) == ss && final(self).idx() == j,
                Err(pe) => r == Err::<Vec<Statement>, ParseError>(pe),
            },
    {
        self.program()
    }
}

/// The statement models of a parsed program.
pub open spec fn program_view(ss: Seq<Statement>) -> Seq<StatementModel> {
    ss.map_values(|s: Statement| stmt_view(s))
}

proof fn lemma_program_view_push(ss: Seq<Statement>, s: Statement)
    ensures
        program_view(ss.push(s)) == program_view(ss).push(stmt_view(s)),
{
    assert(program_view(ss.push(s)) =~= program_view(ss).push(stmt_view(s)));
}

proof fn lemma_stmts_view_push(ss: Seq<Box<Statement>>, b: Box<Statement>)
    ensures
        stmts_view(ss.push(b)) == stmts_view(ss).push(stmt_view(*b)),
{
    let s2 = ss.push(b);
    assert(s2.drop_last() =~= ss);
    assert(s2.last() == b);
}

/// A token sequence of the shape the tokenizer guarantees is a well-formed
/// parser input.
pub proof fn lemma_lexed_input_ok(ts: Seq<TokenModel>)
    requires
        crate::lexer::token_seq_wf(ts),
    ensures
        eof_last(ts),
        forall|k: int| 0 <= k < ts.len() ==> token_has_payload(#[trigger] ts[k]),
{
}

/// Law: a program the grammar accepts consumes every token except the one
/// trailing end-of-input token, and its statement list holds exactly one
/// statement per top-level statement production consumed.
pub proof fn lemma_parse_consumes_all(ts: Seq<TokenModel>)
    requires
        crate::lexer::token_seq_wf(ts),
    ensures
        spec_program(ts, 0) matches Ok((ss, j)) ==> j == ts.len() - 1,
{
    lemma_program_bounds(ts, 0);
    match spec_program(ts, 0) {
        Ok((ss, j)) => {
            assert(j == ts.len() - 1) by {
                if j < ts.len() - 1 {
                    assert(ts[j].kind != TokenType::EOF);
                }
            }
        },
        Err(_) => {},
    }
}

} // verus!
