use pratt_calc::ast::{BinaryOperator, Expression, Program, Statement, UnaryOperator};
use pratt_calc::grammar::{ParseError, PREFIX_BINDING_POWER};
use pratt_calc::lexer::Lexer;
use pratt_calc::parser::{parse, Parser};
use pratt_calc::token::Token;

fn lit(value: i64) -> Expression {
    Expression::Integer(value)
}

fn unary(op: UnaryOperator, expr: Expression) -> Expression {
    Expression::UnaryOp { op, expr: Box::new(expr) }
}

fn binary(left: Expression, op: BinaryOperator, right: Expression) -> Expression {
    Expression::BinaryOp { left: Box::new(left), op, right: Box::new(right) }
}

fn print_parser_errors(p: &Parser) {
    if !p.errors.is_empty() {
        for err in p.errors.iter() {
            println!("  - {}", err);
        }
    }
}

fn parsed(source: &str) -> (Vec<String>, Vec<String>) {
    let (program, errors) = parse(source);
    let statements = program.statements.iter().map(|s| s.to_string()).collect();
    (statements, errors)
}

#[test]
fn test_operator_precedence_parsing() {
    let math_expressions = vec![
        ("(1 + 2) * 3", "((1 + 2) * 3)"),
        ("1 + 2 * 3", "(1 + (2 * 3))"),
        ("1 + -2 * 3", "(1 + ((-2) * 3))"),
        ("10 - 5 - 2", "((10 - 5) - 2)"),
        ("10 - -2", "(10 - (-2))"),
        ("2 ^ 3 ^ 2", "(2 ^ (3 ^ 2))"),
    ];

    for expr_str in math_expressions {
        let (source, expected) = expr_str;

        let mut parser = Parser::new(source);
        let program = parser.parse_program();
        print_parser_errors(&parser);

        assert_eq!(parser.errors.len(), 0);
        assert_eq!(program.to_string(), expected);
    }
}

#[test]
fn a_new_parser_holds_the_first_two_tokens() {
    let parser = Parser::new("1 + 2");
    assert_eq!(parser.current_token, Token::Integer(1));
    assert_eq!(parser.peek_token, Token::Plus);
    assert!(parser.errors.is_empty());
    let parser = Parser::new("7");
    assert_eq!(parser.current_token, Token::Integer(7));
    assert_eq!(parser.peek_token, Token::EOF);
    let parser = Parser::new("");
    assert_eq!(parser.current_token, Token::EOF);
    assert_eq!(parser.peek_token, Token::EOF);
}

#[test]
fn a_new_parser_reads_no_further_than_two_tokens() {
    let parser = Parser::new("1 2 99999999999999999999");
    assert_eq!(parser.current_token, Token::Integer(1));
    assert_eq!(parser.peek_token, Token::Integer(2));
    let mut parser = Parser::new("1 + 2 99999999999999999999");
    parser.next_token();
    assert_eq!(parser.current_token, Token::Plus);
    assert_eq!(parser.peek_token, Token::Integer(2));
}

#[test]
fn next_token_moves_on_by_one_token() {
    let mut parser = Parser::new("1 + 2");
    parser.next_token();
    assert_eq!(parser.current_token, Token::Plus);
    assert_eq!(parser.peek_token, Token::Integer(2));
    parser.next_token();
    assert_eq!(parser.current_token, Token::Integer(2));
    assert_eq!(parser.peek_token, Token::EOF);
    parser.next_token();
    assert_eq!(parser.current_token, Token::EOF);
    assert_eq!(parser.peek_token, Token::EOF);
    parser.next_token();
    assert_eq!(parser.current_token, Token::EOF);
    assert_eq!(parser.peek_token, Token::EOF);
    assert!(parser.errors.is_empty());
}

#[test]
fn binding_powers_shape_the_tree() {
    let (program, errors) = parse("1 + 2 * 3 ^ 4 ^ 5 / 6 - 7");
    assert!(errors.is_empty());
    let expected = binary(
        binary(
            lit(1),
            BinaryOperator::Plus,
            binary(
                binary(
                    lit(2),
                    BinaryOperator::Multiply,
                    binary(
                        lit(3),
                        BinaryOperator::Power,
                        binary(lit(4), BinaryOperator::Power, lit(5)),
                    ),
                ),
                BinaryOperator::Divide,
                lit(6),
            ),
        ),
        BinaryOperator::Minus,
        lit(7),
    );
    assert_eq!(program, Program { statements: vec![Statement::ExpressionStatement(expected)] });
}

#[test]
fn prefix_operators_bind_more_strongly_than_any_infix_operator() {
    assert_eq!(PREFIX_BINDING_POWER, 80);
    assert_eq!(parsed("-2 ^ 2").0, vec!["((-2) ^ 2)"]);
    assert_eq!(parsed("- - 2").0, vec!["(-(-2))"]);
    assert_eq!(parsed("+-+3").0, vec!["(+(-(+3)))"]);
    assert_eq!(parsed("-(1 + 2) * 3").0, vec!["((-(1 + 2)) * 3)"]);
    assert_eq!(parsed("2 ^ -3 ^ 2").0, vec!["(2 ^ ((-3) ^ 2))"]);
    let (program, errors) = parse("-5");
    assert!(errors.is_empty());
    assert_eq!(
        program.statements,
        vec![Statement::ExpressionStatement(unary(UnaryOperator::Minus, lit(5)))]
    );
}

#[test]
fn anything_may_stand_between_parentheses() {
    assert_eq!(parsed("2 ^ (1 + 2)").0, vec!["(2 ^ (1 + 2))"]);
    assert_eq!(parsed("((((7))))").0, vec!["7"]);
    assert_eq!(parsed("(1 - (2 - (3 - 4)))").0, vec!["(1 - (2 - (3 - 4)))"]);
    assert_eq!(parsed("-(2 ^ 3) ^ 2").0, vec!["((-(2 ^ 3)) ^ 2)"]);
}

#[test]
fn statements_come_in_the_order_of_the_source() {
    assert_eq!(parsed("1 2 3"), (vec!["1".to_string(), "2".to_string(), "3".to_string()], vec![]));
    assert_eq!(parsed("(1 + 2) 3").0, vec!["(1 + 2)", "3"]);
    assert_eq!(parsed("1 + 2\n3 * 4\n(5)").0, vec!["(1 + 2)", "(3 * 4)", "5"]);
    let (program, errors) = parse("1 2");
    assert!(errors.is_empty());
    assert_eq!(program.to_string(), "1\n2");
}

#[test]
fn an_empty_source_has_no_statements_and_no_errors() {
    let empty: Vec<String> = vec![];
    assert_eq!(parsed(""), (empty.clone(), empty.clone()));
    assert_eq!(parsed(" \n\t "), (empty.clone(), empty));
}

#[test]
fn a_failed_statement_leaves_one_error_and_the_next_is_parsed() {
    let mut parser = Parser::new(") ) 1 + 2");
    let program = parser.parse_program();
    assert_eq!(parser.errors, vec!["Unexpected token in NUD: RParen"]);
    assert_eq!(
        program.statements,
        vec![Statement::ExpressionStatement(binary(lit(1), BinaryOperator::Plus, lit(2)))]
    );
    assert_eq!(parser.current_token, Token::EOF);
}

#[test]
fn one_token_is_passed_over_after_a_failure() {
    // The token after the one that failed is passed over, whatever it is.
    assert_eq!(
        parsed("@ 1 + 2"),
        (vec!["(+2)".to_string()], vec!["Unexpected token in NUD: Illegal".to_string()])
    );
    assert_eq!(
        parsed("1 $ 2"),
        (vec!["1".to_string()], vec!["Unexpected token in NUD: Illegal".to_string()])
    );
    assert_eq!(
        parsed("* / 3 4"),
        (
            vec!["3".to_string(), "4".to_string()],
            vec!["Unexpected token in NUD: Asterisk".to_string()]
        )
    );
    assert_eq!(
        parsed("1 + ) 2"),
        (vec![], vec!["Unexpected token in NUD: RParen".to_string()])
    );
}

#[test]
fn every_failed_statement_leaves_its_error_in_order() {
    assert_eq!(
        parsed(") 1 ^ 2 3 * 4"),
        (
            vec!["(3 * 4)".to_string()],
            vec![
                "Unexpected token in NUD: RParen".to_string(),
                "Unexpected token in NUD: Caret".to_string()
            ]
        )
    );
    assert_eq!(
        parsed("1 * * 2 (3"),
        (
            vec![],
            vec![
                "Unexpected token in NUD: Asterisk".to_string(),
                "Expected RParen, but got EOF".to_string()
            ]
        )
    );
}

#[test]
fn a_missing_operand_is_an_error() {
    assert_eq!(parsed("1 +"), (vec![], vec!["Unexpected token in NUD: EOF".to_string()]));
    assert_eq!(parsed("-"), (vec![], vec!["Unexpected token in NUD: EOF".to_string()]));
    assert_eq!(parsed("()"), (vec![], vec!["Unexpected token in NUD: RParen".to_string()]));
}

#[test]
fn a_missing_closing_parenthesis_is_an_error() {
    assert_eq!(parsed("(1 + 2"), (vec![], vec!["Expected RParen, but got EOF".to_string()]));
    // The token found in place of the parenthesis is not taken by the failure: it is
    // the one that is passed over.
    assert_eq!(
        parsed("(1 2 3"),
        (vec!["3".to_string()], vec!["Expected RParen, but got Integer(2)".to_string()])
    );
    assert_eq!(
        parsed("(1 ( 3"),
        (vec!["3".to_string()], vec!["Expected RParen, but got LParen".to_string()])
    );
}

#[test]
fn parse_expression_stops_at_an_operator_that_binds_too_weakly() {
    let mut parser = Parser::new("1 + 2 * 3");
    assert_eq!(parser.parse_expression(55), Ok(lit(1)));
    assert_eq!(parser.current_token, Token::Plus);
    assert_eq!(parser.peek_token, Token::Integer(2));

    let mut parser = Parser::new("2 * 3 + 4");
    assert_eq!(
        parser.parse_expression(50),
        Ok(binary(lit(2), BinaryOperator::Multiply, lit(3)))
    );
    assert_eq!(parser.current_token, Token::Plus);

    let mut parser = Parser::new("2 ^ 3 ^ 4");
    assert_eq!(
        parser.parse_expression(70),
        Ok(binary(lit(2), BinaryOperator::Power, binary(lit(3), BinaryOperator::Power, lit(4))))
    );
    let mut parser = Parser::new("2 ^ 3 ^ 4");
    assert_eq!(parser.parse_expression(71), Ok(lit(2)));
    assert_eq!(parser.current_token, Token::Caret);

    let mut parser = Parser::new("2 ^ 3");
    assert_eq!(parser.parse_expression(255), Ok(lit(2)));
}

#[test]
fn parse_expression_hands_back_the_error_and_records_none() {
    let mut parser = Parser::new("* 2");
    assert_eq!(
        parser.parse_expression(0),
        Err("Unexpected token in NUD: Asterisk".to_string())
    );
    assert!(parser.errors.is_empty());
    assert_eq!(parser.current_token, Token::Integer(2));

    let mut parser = Parser::new("(1 + 2 3");
    assert_eq!(
        parser.parse_expression(0),
        Err("Expected RParen, but got Integer(3)".to_string())
    );
    assert!(parser.errors.is_empty());
    assert_eq!(parser.current_token, Token::Integer(3));

    let mut parser = Parser::new("");
    assert_eq!(parser.parse_expression(0), Err("Unexpected token in NUD: EOF".to_string()));
    assert_eq!(parser.current_token, Token::EOF);
}

#[test]
fn parse_statement_records_the_error() {
    let mut parser = Parser::new("1 + 2 ) 3");
    assert_eq!(
        parser.parse_statement(),
        Some(Statement::ExpressionStatement(binary(lit(1), BinaryOperator::Plus, lit(2))))
    );
    assert!(parser.errors.is_empty());
    assert_eq!(parser.parse_statement(), None);
    assert_eq!(parser.errors, vec!["Unexpected token in NUD: RParen"]);
    assert_eq!(parser.parse_statement(), Some(Statement::ExpressionStatement(lit(3))));
    assert_eq!(parser.errors.len(), 1);
    assert_eq!(parser.parse_statement(), None);
    assert_eq!(
        parser.errors,
        vec!["Unexpected token in NUD: RParen", "Unexpected token in NUD: EOF"]
    );
}

#[test]
fn errors_are_added_to_those_that_were_there() {
    let mut parser = Parser::new("* 1 2");
    parser.errors.push("before".to_string());
    let program = parser.parse_program();
    assert_eq!(parser.errors, vec!["before", "Unexpected token in NUD: Asterisk"]);
    assert_eq!(program.statements, vec![Statement::ExpressionStatement(lit(2))]);
}

#[test]
fn parse_program_stops_at_an_end_of_input_that_was_put_in_by_hand() {
    let mut parser = Parser::new("1 2 3");
    parser.peek_token = Token::EOF;
    let program = parser.parse_program();
    assert_eq!(program.statements, vec![Statement::ExpressionStatement(lit(1))]);
    assert_eq!(parser.current_token, Token::EOF);
    assert_eq!(parser.peek_token, Token::Integer(3));
    assert!(parser.errors.is_empty());
}

#[test]
fn parse_errors_in_words() {
    assert_eq!(
        ParseError::UnexpectedPrefix(Token::RParen).to_string(),
        "Unexpected token in NUD: RParen"
    );
    assert_eq!(
        ParseError::UnexpectedPrefix(Token::Integer(-3)).to_string(),
        "Unexpected token in NUD: Integer(-3)"
    );
    assert_eq!(
        ParseError::NotInfix(Token::Integer(5)).to_string(),
        "Unexpected token in LED, not an infix operator: Integer(5)"
    );
    assert_eq!(
        ParseError::NotInfix(Token::LParen).to_string(),
        "Unexpected token in LED, not an infix operator: LParen"
    );
    assert_eq!(
        (ParseError::Expected { expected: Token::RParen, found: Token::EOF }).to_string(),
        "Expected RParen, but got EOF"
    );
    assert_eq!(
        (ParseError::Expected { expected: Token::Integer(1), found: Token::Illegal }).to_string(),
        "Expected Integer(1), but got Illegal"
    );
}

fn in_order(e: &Expression, out: &mut Vec<Token>) {
    match e {
        Expression::Integer(value) => out.push(Token::Integer(*value)),
        Expression::UnaryOp { op, expr } => {
            out.push(match op {
                UnaryOperator::Plus => Token::Plus,
                UnaryOperator::Minus => Token::Minus,
            });
            in_order(expr, out);
        }
        Expression::BinaryOp { left, op, right } => {
            in_order(left, out);
            out.push(match op {
                BinaryOperator::Plus => Token::Plus,
                BinaryOperator::Minus => Token::Minus,
                BinaryOperator::Multiply => Token::Asterisk,
                BinaryOperator::Divide => Token::Slash,
                BinaryOperator::Power => Token::Caret,
            });
            in_order(right, out);
        }
    }
}

#[test]
fn the_tree_holds_the_tokens_in_their_order() {
    for source in ["1 + 2 * 3", "-(1 - 2) ^ 3 ^ -4 / (5)", "((1)) * - + 2", "2 ^ (3 + 4) * 5"] {
        let mut lexer = Lexer::new(source);
        let mut expected = Vec::new();
        loop {
            let token = lexer.next_token();
            if token == Token::EOF {
                break;
            }
            if token != Token::LParen && token != Token::RParen {
                expected.push(token);
            }
        }
        let (program, errors) = parse(source);
        assert!(errors.is_empty());
        assert_eq!(program.statements.len(), 1);
        let mut found = Vec::new();
        match &program.statements[0] {
            Statement::ExpressionStatement(e) => in_order(e, &mut found),
        }
        assert_eq!(found, expected);
    }
}
