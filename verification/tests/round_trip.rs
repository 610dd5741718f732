use pratt_calc::ast::Statement;
use pratt_calc::evaluate::evaluate;
use pratt_calc::lexer::literals_fit;
use pratt_calc::parser::parse;

fn check_round_trip(source: &str) {
    let (program, errors) = parse(source);
    assert!(errors.is_empty());
    let written = program.to_string();
    assert!(literals_fit(&written));
    let (again, errors_again) = parse(&written);
    assert!(errors_again.is_empty());
    assert_eq!(again, program);
    assert_eq!(again.to_string(), written);
    for (first, second) in program.statements.iter().zip(again.statements.iter()) {
        match (first, second) {
            (Statement::ExpressionStatement(a), Statement::ExpressionStatement(b)) => {
                assert_eq!(evaluate(a), evaluate(b));
            }
        }
    }
}

#[test]
fn written_out_and_parsed_again_an_expression_is_the_same() {
    check_round_trip("1 + 2 * 3");
    check_round_trip("(1 + 2) * 3");
    check_round_trip("1 + -2 * 3");
    check_round_trip("10 - 5 - 2");
    check_round_trip("10 - -2");
    check_round_trip("2 ^ 3 ^ 2");
    check_round_trip("-(-(+7))");
    check_round_trip("0007");
    check_round_trip("9223372036854775807");
    check_round_trip("5 / 0");
    check_round_trip("2 ^ -1");
    check_round_trip("((1))");
    check_round_trip("-2 ^ 2 / (3 - 3) * 4");
}

#[test]
fn written_out_and_parsed_again_a_program_is_the_same() {
    check_round_trip("");
    check_round_trip("1 2 3");
    check_round_trip("1 + 2 (3 * 4) 5 ^ 6");
    check_round_trip("(1) (2) -3");
}

#[test]
fn the_statements_that_were_parsed_beside_errors_are_parsed_again_without_errors() {
    let (program, errors) = parse("1 + 2 ) ) 3 * 4 )");
    assert_eq!(errors.len(), 2);
    assert_eq!(program.to_string(), "(1 + 2)\n(3 * 4)");
    let (again, errors_again) = parse(&program.to_string());
    assert!(errors_again.is_empty());
    assert_eq!(again, program);
}
