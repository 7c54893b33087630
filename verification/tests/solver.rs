use calculator::eval::{evaluate, first_non_para_in_stack, first_operator_in_stack, solve};
use calculator::token::{EvalError, Operator, Token};
use calculator::tokenizer::tokenize;

fn number_token(s: &str) -> Token {
    Token::Number(s.chars().collect())
}

fn apply(op: Operator, lhs: f64, rhs: f64) -> f64 {
    match op {
        Operator::Add => lhs + rhs,
        Operator::Sub => lhs - rhs,
        Operator::Mul => lhs * rhs,
        Operator::Div => lhs / rhs,
        Operator::Mod => lhs % rhs,
        Operator::Exp => lhs.powf(rhs),
        Operator::LPar | Operator::RPar => unreachable!(),
    }
}

fn run_schedule(plan: &[Token]) -> f64 {
    let mut stack: Vec<f64> = Vec::new();
    for step in plan {
        match step {
            Token::Number(chars) => {
                let lit: String = chars.iter().collect();
                stack.push(lit.parse::<f64>().unwrap());
            }
            Token::Operator(op) => {
                let rhs = stack.pop().unwrap();
                let lhs = stack.pop().unwrap();
                stack.push(apply(*op, lhs, rhs));
            }
        }
    }
    assert_eq!(stack.len(), 1);
    stack[0]
}

fn solve_to_number(text: &str) -> Result<f64, EvalError> {
    solve(text).map(|plan| run_schedule(&plan))
}

#[test]
fn evaluates_simple_arithmetic() {
    assert_eq!(solve_to_number("2+3*4"), Ok(14.0));
    assert_eq!(solve_to_number("(2+3)*4"), Ok(20.0));
    assert_eq!(solve_to_number("1+1"), Ok(2.0));
    assert_eq!(solve_to_number("7-10"), Ok(-3.0));
}

#[test]
fn multiplication_binds_tighter_than_addition() {
    assert_eq!(solve_to_number("2+3*4"), solve_to_number("2+(3*4)"));
    assert_ne!(solve_to_number("2+3*4"), solve_to_number("(2+3)*4"));
}

#[test]
fn subtraction_is_left_associative() {
    assert_eq!(solve_to_number("10-2-3"), Ok(5.0));
    assert_eq!(solve_to_number("20/2/5"), Ok(2.0));
}

#[test]
fn exponentiation_is_right_associative() {
    assert_eq!(solve_to_number("2^3^2"), Ok(512.0));
    assert_ne!(solve_to_number("2^3^2"), Ok(64.0));
}

#[test]
fn modulo_has_multiplicative_precedence() {
    assert_eq!(solve_to_number("10%3"), Ok(1.0));
    assert_eq!(solve_to_number("1+10%3"), Ok(2.0));
}

#[test]
fn decimal_literals_are_read() {
    assert_eq!(solve_to_number("1.5+2.25"), Ok(3.75));
}

#[test]
fn unclosed_left_parenthesis_is_mismatched() {
    assert_eq!(solve("(1+2"), Err(EvalError::MismatchedParenthesis));
    assert_eq!(solve("((1)"), Err(EvalError::MismatchedParenthesis));
}

#[test]
fn stray_right_parenthesis_is_unmatched() {
    assert_eq!(solve("1+2)"), Err(EvalError::UnmatchedParenthesis));
    assert_eq!(solve(")"), Err(EvalError::UnmatchedParenthesis));
}

#[test]
fn division_by_zero_gives_infinity() {
    assert_eq!(solve_to_number("1/0"), Ok(f64::INFINITY));
}

#[test]
fn whitespace_and_commas_change_nothing() {
    assert_eq!(solve_to_number("2 + 3"), solve_to_number("2+3"));
    assert_eq!(solve_to_number("2,+,3"), solve_to_number("2+3"));
    assert_eq!(solve_to_number(" ( 2 + 3 ) * 4 "), Ok(20.0));
}

#[test]
fn missing_operands_underflow() {
    assert_eq!(solve("+2"), Err(EvalError::StackUnderflow));
    assert_eq!(solve("*"), Err(EvalError::StackUnderflow));
    assert_eq!(solve("1+*2"), Err(EvalError::StackUnderflow));
    assert_eq!(solve("-2"), Err(EvalError::StackUnderflow));
}

#[test]
fn empty_input_has_no_result() {
    assert_eq!(solve(""), Err(EvalError::EmptyResult));
    assert_eq!(solve("hello"), Err(EvalError::EmptyResult));
    assert_eq!(solve("()"), Err(EvalError::EmptyResult));
}

#[test]
fn two_operands_without_operator_are_malformed() {
    assert_eq!(solve("1 2"), Err(EvalError::MalformedExpression));
    assert_eq!(solve("(1)(2)"), Err(EvalError::MalformedExpression));
}

#[test]
fn valid_expressions_always_evaluate() {
    assert_eq!(solve_to_number("(1+2)*(3-4)^2"), Ok(3.0));
    assert_eq!(solve_to_number("((((5))))"), Ok(5.0));
    assert_eq!(solve_to_number("2*(3+4*(5-1))/2"), Ok(19.0));
}

#[test]
fn schedule_is_in_postfix_order() {
    assert_eq!(
        solve("2+3*4"),
        Ok(vec![
            number_token("2"),
            number_token("3"),
            number_token("4"),
            Token::Operator(Operator::Mul),
            Token::Operator(Operator::Add),
        ])
    );
    assert_eq!(
        solve("2^3^2"),
        Ok(vec![
            number_token("2"),
            number_token("3"),
            number_token("2"),
            Token::Operator(Operator::Exp),
            Token::Operator(Operator::Exp),
        ])
    );
}

#[test]
fn tokenize_reads_numbers_and_operators() {
    assert_eq!(
        tokenize("12.5+(3)"),
        vec![
            number_token("12.5"),
            Token::Operator(Operator::Add),
            Token::Operator(Operator::LPar),
            number_token("3"),
            Token::Operator(Operator::RPar),
        ]
    );
}

#[test]
fn tokenize_skips_unrecognized_characters() {
    assert_eq!(tokenize("a1b2"), vec![number_token("1"), number_token("2")]);
    assert_eq!(tokenize("  ,; "), vec![]);
}

#[test]
fn tokenize_ends_a_literal_at_a_second_decimal_point() {
    assert_eq!(tokenize("1.2.3"), vec![number_token("1.2"), number_token("3")]);
    assert_eq!(tokenize("7."), vec![number_token("7")]);
}

#[test]
fn evaluate_runs_over_given_tokens() {
    assert_eq!(
        evaluate(vec![number_token("1"), Token::Operator(Operator::Add)]),
        Err(EvalError::StackUnderflow)
    );
    assert_eq!(
        evaluate(vec![number_token("1"), Token::Operator(Operator::Add), number_token("2")]),
        Ok(vec![number_token("1"), number_token("2"), Token::Operator(Operator::Add)])
    );
}

#[test]
fn operator_symbols_round_trip() {
    assert_eq!(Operator::from_symbol('+'), Operator::Add);
    assert_eq!(Operator::from_symbol('-'), Operator::Sub);
    assert_eq!(Operator::from_symbol('*'), Operator::Mul);
    assert_eq!(Operator::from_symbol('/'), Operator::Div);
    assert_eq!(Operator::from_symbol('%'), Operator::Mod);
    assert_eq!(Operator::from_symbol('^'), Operator::Exp);
    assert_eq!(Operator::from_symbol('('), Operator::LPar);
    assert_eq!(Operator::from_symbol(')'), Operator::RPar);
}

#[test]
fn precedence_orders_the_operators() {
    assert_eq!(Operator::Add.precedence(), 2);
    assert_eq!(Operator::Sub.precedence(), 2);
    assert_eq!(Operator::Mul.precedence(), 3);
    assert_eq!(Operator::Div.precedence(), 3);
    assert_eq!(Operator::Mod.precedence(), 3);
    assert_eq!(Operator::Exp.precedence(), 4);
    assert_eq!(Operator::LPar.precedence(), 0);
}

#[test]
fn only_exponentiation_groups_to_the_right() {
    assert!(Operator::Add.is_left_associative());
    assert!(Operator::Sub.is_left_associative());
    assert!(Operator::Mul.is_left_associative());
    assert!(Operator::Div.is_left_associative());
    assert!(Operator::Mod.is_left_associative());
    assert!(!Operator::Exp.is_left_associative());
}

#[test]
fn stack_peeks_see_the_top() {
    assert_eq!(first_operator_in_stack(&[]), None);
    assert_eq!(first_operator_in_stack(&[Operator::Add, Operator::Mul]), Some(Operator::Mul));
    assert_eq!(first_non_para_in_stack(&[Operator::Add, Operator::LPar]), None);
    assert_eq!(first_non_para_in_stack(&[Operator::LPar, Operator::Add]), Some(Operator::Add));
    assert_eq!(first_non_para_in_stack(&[]), None);
}
