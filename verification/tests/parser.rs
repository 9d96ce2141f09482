use mini_lang::parse::{
    expect, parse, parse_assignment, parse_expr, parse_factor, parse_primary, parse_term,
    parse_variable, AssignmentImpl, BinaryOpImpl, Expr, FunCallImpl, NumberImpl, ParseError,
    VariableImpl,
};
use mini_lang::tokenize::{tokenize, Token, TokenType};

fn token(token_type: TokenType, lexeme: &str) -> Token {
    Token { token_type, lexeme: lexeme.to_string() }
}

fn number(value: i32) -> Expr {
    Expr::Number(NumberImpl { value, token: token(TokenType::NumberLiteral, &value.to_string()) })
}

fn variable(name: &str) -> Expr {
    Expr::Variable(VariableImpl { name: token(TokenType::Identifier, name) })
}

fn binary(lhs: Expr, kind: TokenType, text: &str, rhs: Expr) -> Expr {
    Expr::BinaryOperation(BinaryOpImpl {
        lhs: Box::new(lhs),
        operation: token(kind, text),
        rhs: Box::new(rhs),
    })
}

fn assign(name: &str, value: Expr) -> Expr {
    Expr::Assignment(AssignmentImpl {
        target: VariableImpl { name: token(TokenType::Identifier, name) },
        value: Box::new(value),
    })
}

fn call(name: &str, arg: Expr) -> Expr {
    Expr::FunCall(FunCallImpl {
        name: VariableImpl { name: token(TokenType::Identifier, name) },
        arg: Box::new(arg),
    })
}

fn program(source: &str) -> Result<Vec<Expr>, ParseError> {
    parse(tokenize(source).unwrap())
}

/// The tokens of `source` as the stack that the parsing functions read: next
/// token last.
fn stack(source: &str) -> Vec<Token> {
    let mut tokens = tokenize(source).unwrap();
    tokens.reverse();
    tokens
}

#[test]
fn no_tokens_no_expressions() {
    assert_eq!(parse(vec![]), Ok(vec![]));
}

#[test]
fn multiplication_binds_tighter_than_addition() {
    assert_eq!(
        program("2 + 3 * 4"),
        Ok(vec![binary(
            number(2),
            TokenType::Plus,
            "+",
            binary(number(3), TokenType::Star, "*", number(4)),
        )])
    );
    assert_eq!(
        program("2 * 3 + 4"),
        Ok(vec![binary(
            binary(number(2), TokenType::Star, "*", number(3)),
            TokenType::Plus,
            "+",
            number(4),
        )])
    );
}

#[test]
fn subtraction_and_division_group_from_the_left() {
    assert_eq!(
        program("10 - 3 - 2"),
        Ok(vec![binary(
            binary(number(10), TokenType::Minus, "-", number(3)),
            TokenType::Minus,
            "-",
            number(2),
        )])
    );
    assert_eq!(
        program("20 / 4 / 5"),
        Ok(vec![binary(
            binary(number(20), TokenType::Slash, "/", number(4)),
            TokenType::Slash,
            "/",
            number(5),
        )])
    );
}

#[test]
fn assignment_groups_from_the_right() {
    assert_eq!(
        program("a=b=2 * 3"),
        Ok(vec![assign(
            "a",
            assign("b", binary(number(2), TokenType::Star, "*", number(3))),
        )])
    );
}

#[test]
fn parentheses_leave_no_node() {
    assert_eq!(program("(7)"), Ok(vec![number(7)]));
    assert_eq!(program("((x))"), Ok(vec![variable("x")]));
    assert_eq!(
        program("(2 + 3) * 4"),
        Ok(vec![binary(
            binary(number(2), TokenType::Plus, "+", number(3)),
            TokenType::Star,
            "*",
            number(4),
        )])
    );
}

#[test]
fn identifier_before_a_paren_is_a_call() {
    assert_eq!(program("print(5)"), Ok(vec![call("print", number(5))]));
    assert_eq!(program("f(x)"), Ok(vec![call("f", variable("x"))]));
    assert_eq!(program("x"), Ok(vec![variable("x")]));
    assert_eq!(
        program("x * (y)"),
        Ok(vec![binary(variable("x"), TokenType::Star, "*", variable("y"))])
    );
}

#[test]
fn call_argument_is_a_whole_expression() {
    assert_eq!(
        program("print(a = 1 + 2)"),
        Ok(vec![call(
            "print",
            assign("a", binary(number(1), TokenType::Plus, "+", number(2))),
        )])
    );
}

#[test]
fn assignment_value_may_be_a_call() {
    assert_eq!(program("c=print(5)"), Ok(vec![assign("c", call("print", number(5)))]));
}

#[test]
fn number_node_keeps_its_token() {
    let exprs = program("007").unwrap();
    assert_eq!(
        exprs,
        vec![Expr::Number(NumberImpl { value: 7, token: token(TokenType::NumberLiteral, "007") })]
    );
}

#[test]
fn one_expression_for_each_line() {
    assert_eq!(program("1\n2\n3"), Ok(vec![number(1), number(2), number(3)]));
}

#[test]
fn last_line_may_end_with_a_newline_or_without() {
    assert_eq!(program("1\n2"), Ok(vec![number(1), number(2)]));
    assert_eq!(program("1\n2\n"), Ok(vec![number(1), number(2)]));
}

#[test]
fn sample_program_trees() {
    assert_eq!(
        program("a=b=2 * 3\nc=print(b+3)\nprint(c/a)"),
        Ok(vec![
            assign("a", assign("b", binary(number(2), TokenType::Star, "*", number(3)))),
            assign(
                "c",
                call("print", binary(variable("b"), TokenType::Plus, "+", number(3))),
            ),
            call("print", binary(variable("c"), TokenType::Slash, "/", variable("a"))),
        ])
    );
}

#[test]
fn leftover_token_before_the_newline_is_an_error() {
    assert_eq!(
        program("2 3"),
        Err(ParseError::UnexpectedToken {
            expected: TokenType::NewLine,
            found: token(TokenType::NumberLiteral, "3"),
        })
    );
    assert_eq!(
        program("a b\nc"),
        Err(ParseError::UnexpectedToken {
            expected: TokenType::NewLine,
            found: token(TokenType::Identifier, "b"),
        })
    );
    assert_eq!(
        program("(1) )"),
        Err(ParseError::UnexpectedToken {
            expected: TokenType::NewLine,
            found: token(TokenType::RightParen, ")"),
        })
    );
}

#[test]
fn wrong_closing_token_is_an_error() {
    assert_eq!(
        program("(1 \n"),
        Err(ParseError::UnexpectedToken {
            expected: TokenType::RightParen,
            found: token(TokenType::NewLine, "\n"),
        })
    );
    assert_eq!(
        program("print(1 2)"),
        Err(ParseError::UnexpectedToken {
            expected: TokenType::RightParen,
            found: token(TokenType::NumberLiteral, "2"),
        })
    );
}

#[test]
fn missing_closing_paren_at_the_end_is_an_error() {
    assert_eq!(program("(1"), Err(ParseError::UnexpectedEndOfInput));
    assert_eq!(program("print(5"), Err(ParseError::UnexpectedEndOfInput));
}

#[test]
fn missing_operand_at_the_end_is_an_error() {
    assert_eq!(program("2 +"), Err(ParseError::UnexpectedEndOfInput));
    assert_eq!(program("a ="), Err(ParseError::UnexpectedEndOfInput));
    assert_eq!(program("("), Err(ParseError::UnexpectedEndOfInput));
    assert_eq!(program("f("), Err(ParseError::UnexpectedEndOfInput));
}

#[test]
fn factor_operator_at_the_very_end_misses_its_operand() {
    assert_eq!(program("2 *"), Err(ParseError::UnexpectedEndOfInput));
    assert_eq!(program("2 /"), Err(ParseError::UnexpectedEndOfInput));
    assert_eq!(program("1 + 2 *"), Err(ParseError::UnexpectedEndOfInput));
    assert_eq!(program("a = b /"), Err(ParseError::UnexpectedEndOfInput));
    let mut tokens = stack("2 *");
    assert_eq!(parse_factor(&mut tokens), Err(ParseError::UnexpectedEndOfInput));
    let mut tokens = stack("2 * 3 /");
    assert_eq!(parse_factor(&mut tokens), Err(ParseError::UnexpectedEndOfInput));
}

#[test]
fn factor_leaves_no_factor_operator_behind() {
    for source in ["2", "2 * 3", "2 * 3 / 4 * 5", "2 * 3 + 4 * 5", "2 / x )", "f(1) * 2 \n3"] {
        let mut tokens = stack(source);
        assert!(parse_factor(&mut tokens).is_ok(), "on {:?}", source);
        if let Some(next) = tokens.last() {
            assert_ne!(next.token_type, TokenType::Star, "on {:?}", source);
            assert_ne!(next.token_type, TokenType::Slash, "on {:?}", source);
        }
    }
}

#[test]
fn term_leaves_no_term_operator_behind() {
    for source in ["2", "2 + 3", "2 - 3 + 4 * 5 - 6", "2 + x )", "1 - 2 \n3"] {
        let mut tokens = stack(source);
        assert!(parse_term(&mut tokens).is_ok(), "on {:?}", source);
        if let Some(next) = tokens.last() {
            assert_ne!(next.token_type, TokenType::Plus, "on {:?}", source);
            assert_ne!(next.token_type, TokenType::Minus, "on {:?}", source);
        }
    }
}

#[test]
fn token_that_begins_no_expression_is_an_error() {
    assert_eq!(program(")"), Err(ParseError::NotAnExpression(token(TokenType::RightParen, ")"))));
    assert_eq!(program("+ 1"), Err(ParseError::NotAnExpression(token(TokenType::Plus, "+"))));
    assert_eq!(
        program("1 + * 2"),
        Err(ParseError::NotAnExpression(token(TokenType::Star, "*")))
    );
    assert_eq!(
        program("2 * \n"),
        Err(ParseError::NotAnExpression(token(TokenType::NewLine, "\n")))
    );
}

#[test]
fn empty_line_is_an_error() {
    assert_eq!(program("\n"), Err(ParseError::NotAnExpression(token(TokenType::NewLine, "\n"))));
    assert_eq!(
        program("1\n\n2"),
        Err(ParseError::NotAnExpression(token(TokenType::NewLine, "\n")))
    );
}

#[test]
fn assignment_target_has_to_be_an_identifier() {
    assert_eq!(
        program("3 = 4"),
        Err(ParseError::UnexpectedToken {
            expected: TokenType::Identifier,
            found: token(TokenType::NumberLiteral, "3"),
        })
    );
    assert_eq!(
        program("( = 4"),
        Err(ParseError::UnexpectedToken {
            expected: TokenType::Identifier,
            found: token(TokenType::LeftParen, "("),
        })
    );
}

#[test]
fn number_too_large_is_an_error() {
    assert_eq!(
        program("99999999999"),
        Err(ParseError::InvalidNumber(token(TokenType::NumberLiteral, "99999999999")))
    );
    assert_eq!(program("2147483647"), Ok(vec![number(2147483647)]));
    assert_eq!(
        program("2147483648"),
        Err(ParseError::InvalidNumber(token(TokenType::NumberLiteral, "2147483648")))
    );
}

#[test]
fn number_token_that_is_no_numeral_is_an_error() {
    assert_eq!(
        parse(vec![token(TokenType::NumberLiteral, "abc")]),
        Err(ParseError::InvalidNumber(token(TokenType::NumberLiteral, "abc")))
    );
    assert_eq!(
        parse(vec![token(TokenType::NumberLiteral, "")]),
        Err(ParseError::InvalidNumber(token(TokenType::NumberLiteral, "")))
    );
}

#[test]
fn first_error_in_reading_order_wins() {
    assert_eq!(
        program("1 2\n)"),
        Err(ParseError::UnexpectedToken {
            expected: TokenType::NewLine,
            found: token(TokenType::NumberLiteral, "2"),
        })
    );
}

#[test]
fn expect_takes_the_token_it_is_asked_for() {
    let mut tokens = stack("a )");
    assert_eq!(expect(TokenType::Identifier, &mut tokens), Ok(()));
    assert_eq!(tokens, vec![token(TokenType::RightParen, ")")]);
    assert_eq!(expect(TokenType::RightParen, &mut tokens), Ok(()));
    assert!(tokens.is_empty());
}

#[test]
fn expect_names_what_it_wanted_and_what_it_found() {
    let mut tokens = stack("a");
    assert_eq!(
        expect(TokenType::Equal, &mut tokens),
        Err(ParseError::UnexpectedToken {
            expected: TokenType::Equal,
            found: token(TokenType::Identifier, "a"),
        })
    );
}

#[test]
fn expect_at_the_end_takes_only_a_newline_for_granted() {
    let mut tokens: Vec<Token> = vec![];
    assert_eq!(expect(TokenType::NewLine, &mut tokens), Ok(()));
    assert!(tokens.is_empty());
    assert_eq!(expect(TokenType::RightParen, &mut tokens), Err(ParseError::UnexpectedEndOfInput));
    assert_eq!(expect(TokenType::Equal, &mut tokens), Err(ParseError::UnexpectedEndOfInput));
}

#[test]
fn variable_is_an_identifier() {
    let mut tokens = stack("x y");
    assert_eq!(
        parse_variable(&mut tokens),
        Ok(VariableImpl { name: token(TokenType::Identifier, "x") })
    );
    assert_eq!(tokens, vec![token(TokenType::Identifier, "y")]);
    let mut tokens = stack("1");
    assert_eq!(
        parse_variable(&mut tokens),
        Err(ParseError::UnexpectedToken {
            expected: TokenType::Identifier,
            found: token(TokenType::NumberLiteral, "1"),
        })
    );
    let mut tokens: Vec<Token> = vec![];
    assert_eq!(parse_variable(&mut tokens), Err(ParseError::UnexpectedEndOfInput));
}

#[test]
fn primary_takes_one_operand_and_leaves_the_rest() {
    let mut tokens = stack("1 + 2");
    assert_eq!(parse_primary(&mut tokens), Ok(number(1)));
    assert_eq!(tokens, stack("+ 2"));
    let mut tokens = stack("f(1) * 2");
    assert_eq!(parse_primary(&mut tokens), Ok(call("f", number(1))));
    assert_eq!(tokens, stack("* 2"));
}

#[test]
fn factor_stops_before_a_term_operator() {
    let mut tokens = stack("2 * 3 / 4 + 5");
    assert_eq!(
        parse_factor(&mut tokens),
        Ok(binary(
            binary(number(2), TokenType::Star, "*", number(3)),
            TokenType::Slash,
            "/",
            number(4),
        ))
    );
    assert_eq!(tokens, stack("+ 5"));
}

#[test]
fn term_stops_before_what_is_no_operator() {
    let mut tokens = stack("1 + 2 - 3 )\n4");
    assert_eq!(
        parse_term(&mut tokens),
        Ok(binary(
            binary(number(1), TokenType::Plus, "+", number(2)),
            TokenType::Minus,
            "-",
            number(3),
        ))
    );
    assert_eq!(tokens, stack(")\n4"));
}

#[test]
fn expression_takes_one_statement_and_leaves_the_next() {
    let mut tokens = stack("a = 1 + 2 \nb = 3");
    assert_eq!(
        parse_expr(&mut tokens),
        Ok(assign("a", binary(number(1), TokenType::Plus, "+", number(2))))
    );
    assert_eq!(tokens, stack("\nb = 3"));
    let mut tokens = stack("a\n= 3");
    assert_eq!(parse_assignment(&mut tokens), Ok(variable("a")));
    assert_eq!(tokens, stack("\n= 3"));
}
