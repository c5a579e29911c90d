use calculator::{
    apply_operator, calculate, denotes_number, evaluate, precedence, tokenize, EvalError, Token,
};

fn read(text: &str) -> f64 {
    text.parse::<f64>().unwrap()
}

fn zero(value: &f64) -> bool {
    *value == 0.0
}

fn compute(op: char, a: f64, b: f64) -> f64 {
    match op {
        '+' => a + b,
        '-' => a - b,
        '*' => a * b,
        '/' => a / b,
        _ => panic!("asked for {op}"),
    }
}

fn calc(expression: &str) -> Result<f64, EvalError> {
    calculate(expression, read, zero, compute)
}

fn num(text: &str) -> Token {
    Token::Number(text.to_string())
}

fn op(symbol: char) -> Token {
    Token::Operator(symbol)
}

#[test]
fn multiplication_binds_tighter_than_addition() {
    assert_eq!(calc("3 + 4 * 2"), Ok(11.0));
    assert_eq!(calc("3 * 4 + 2"), Ok(14.0));
}

#[test]
fn division_then_subtraction() {
    assert_eq!(calc("10 / 2 - 3"), Ok(2.0));
}

#[test]
fn two_products_added() {
    assert_eq!(calc("2 * 3 + 4 * 5"), Ok(26.0));
}

#[test]
fn equal_precedence_goes_left_to_right() {
    assert_eq!(calc("10 - 4 - 3"), Ok(3.0));
    assert_eq!(calc("100 / 10 / 5"), Ok(2.0));
    assert_eq!(calc("8 / 4 * 2"), Ok(4.0));
    assert_eq!(calc("1 - 2 + 3"), Ok(2.0));
}

#[test]
fn decimal_numbers() {
    assert_eq!(calc("1.5 + 2.25"), Ok(3.75));
    assert_eq!(calc(".5 * 4"), Ok(2.0));
    assert_eq!(calc("2. * 4"), Ok(8.0));
    assert_eq!(calc("42"), Ok(42.0));
}

#[test]
fn division_by_zero_is_an_error() {
    assert_eq!(calc("5 / 0"), Err(EvalError::DivisionByZero));
    assert_eq!(calc("1 + 5 / 0.0"), Err(EvalError::DivisionByZero));
}

#[test]
fn division_by_zero_comes_before_a_later_fault() {
    assert_eq!(calc("5 / 0 +"), Err(EvalError::DivisionByZero));
}

#[test]
fn trailing_operator_lacks_an_operand() {
    assert_eq!(calc("3 + "), Err(EvalError::InsufficientOperands));
}

#[test]
fn leading_operator_lacks_an_operand() {
    assert_eq!(calc("+ 3"), Err(EvalError::InsufficientOperands));
    assert_eq!(calc("-3"), Err(EvalError::InsufficientOperands));
}

#[test]
fn operators_alone_lack_operands() {
    assert_eq!(calc("+"), Err(EvalError::InsufficientOperands));
    assert_eq!(calc("* /"), Err(EvalError::InsufficientOperands));
}

#[test]
fn letters_are_rejected_at_the_first() {
    assert_eq!(calc("abc"), Err(EvalError::InvalidCharacter('a')));
    assert_eq!(tokenize("abc"), Err(EvalError::InvalidCharacter('a')));
    assert_eq!(tokenize("1 + x * y"), Err(EvalError::InvalidCharacter('x')));
    assert_eq!(tokenize("2 \u{e9} 3"), Err(EvalError::InvalidCharacter('\u{e9}')));
    assert_eq!(tokenize("1\t2"), Err(EvalError::InvalidCharacter('\t')));
}

#[test]
fn spaces_do_not_matter_around_operators() {
    assert_eq!(calc("3+4"), Ok(7.0));
    assert_eq!(calc(" 3 + 4 "), Ok(7.0));
    assert_eq!(tokenize("3+4"), tokenize(" 3 + 4 "));
    assert_eq!(tokenize("3+4"), tokenize("   3   +4"));
}

#[test]
fn a_space_ends_a_number() {
    assert_eq!(tokenize("1 2"), Ok(vec![num("1"), num("2")]));
    assert_eq!(tokenize("12"), Ok(vec![num("12")]));
    assert_eq!(calc("12"), Ok(12.0));
    assert_eq!(calc("1 2"), Err(EvalError::IncompleteExpression));
}

#[test]
fn evaluating_again_gives_the_same() {
    let first = calc("2 * 3 + 4 * 5 - 6 / 4");
    for _ in 0..5 {
        assert_eq!(calc("2 * 3 + 4 * 5 - 6 / 4"), first);
    }
    assert_eq!(first, Ok(24.5));
    let failed = calc("7 / 0");
    assert_eq!(calc("7 / 0"), failed);
}

#[test]
fn parentheses_are_tokens_but_do_not_group() {
    assert_eq!(
        tokenize("(2 + 3) * 4"),
        Ok(vec![op('('), num("2"), op('+'), num("3"), op(')'), op('*'), num("4")])
    );
    assert_eq!(calc("(2 + 3) * 4"), Err(EvalError::InsufficientOperands));
    assert_eq!(calc("2 * (3 + 4)"), Err(EvalError::InsufficientOperands));
    assert_eq!(calc("1 2 (3)"), Err(EvalError::UnknownOperator));
}

#[test]
fn empty_input_is_incomplete() {
    assert_eq!(calc(""), Err(EvalError::IncompleteExpression));
    assert_eq!(calc("    "), Err(EvalError::IncompleteExpression));
    assert_eq!(evaluate(&[], read, zero, compute), Err(EvalError::IncompleteExpression));
}

#[test]
fn unknown_operator_with_two_operands() {
    assert_eq!(calc("1 2 ("), Err(EvalError::UnknownOperator));
    assert_eq!(calc("1 2 )"), Err(EvalError::UnknownOperator));
}

#[test]
fn tokens_keep_the_order_of_the_text() {
    assert_eq!(
        tokenize("12+3.5*(4-1)/2"),
        Ok(vec![
            num("12"),
            op('+'),
            num("3.5"),
            op('*'),
            op('('),
            num("4"),
            op('-'),
            num("1"),
            op(')'),
            op('/'),
            num("2"),
        ])
    );
    assert_eq!(tokenize(""), Ok(vec![]));
    assert_eq!(tokenize("  "), Ok(vec![]));
}

#[test]
fn points_are_not_checked_by_the_tokenizer() {
    assert_eq!(tokenize("."), Ok(vec![num(".")]));
    assert_eq!(tokenize("1.2.3 + .."), Ok(vec![num("1.2.3"), op('+'), num("..")]));
}

#[test]
fn text_that_is_no_number_acts_as_an_operator() {
    assert_eq!(calc("."), Err(EvalError::InsufficientOperands));
    assert_eq!(calc("1.2.3"), Err(EvalError::InsufficientOperands));
    assert_eq!(calc("1 2 1.2.3"), Err(EvalError::UnknownOperator));
    assert_eq!(calc("1 + 2 ."), Err(EvalError::InsufficientOperands));
    assert_eq!(calc("4 5 + 2 ."), Err(EvalError::UnknownOperator));
}

#[test]
fn number_texts_are_those_that_read_as_floats() {
    for text in ["0", "7", "12.5", "1.", ".5", "007", "3.14159", "123456789012345678901234567890"] {
        assert!(denotes_number(text), "{text}");
        assert!(text.parse::<f64>().is_ok(), "{text}");
    }
    for text in ["", ".", "..", "1.2.3", "1..", ".1.", "1.2."] {
        assert!(!denotes_number(text), "{text}");
        assert!(text.parse::<f64>().is_err(), "{text}");
    }
    for text in ["1e5", "-1", "+1", "inf", "1 ", "a"] {
        assert!(!denotes_number(text), "{text}");
    }
}

#[test]
fn precedence_table() {
    assert_eq!(precedence('+'), 1);
    assert_eq!(precedence('-'), 1);
    assert_eq!(precedence('*'), 2);
    assert_eq!(precedence('/'), 2);
    assert_eq!(precedence('('), 0);
    assert_eq!(precedence(')'), 0);
    assert_eq!(precedence('.'), 0);
    assert_eq!(precedence('x'), 0);
}

#[test]
fn apply_operator_computes_a_op_b() {
    let mut numbers = vec![1.0, 7.0, 2.0];
    assert_eq!(apply_operator(&mut numbers, '-', &zero, &compute), Ok(()));
    assert_eq!(numbers, vec![1.0, 5.0]);
    assert_eq!(apply_operator(&mut numbers, '/', &zero, &compute), Ok(()));
    assert_eq!(numbers, vec![0.2]);
    let mut numbers = vec![3.0, 4.0];
    assert_eq!(apply_operator(&mut numbers, '*', &zero, &compute), Ok(()));
    assert_eq!(numbers, vec![12.0]);
    let mut numbers = vec![3.0, 4.0];
    assert_eq!(apply_operator(&mut numbers, '+', &zero, &compute), Ok(()));
    assert_eq!(numbers, vec![7.0]);
}

#[test]
fn apply_operator_errors() {
    let mut numbers = vec![1.0];
    assert_eq!(
        apply_operator(&mut numbers, '+', &zero, &compute),
        Err(EvalError::InsufficientOperands)
    );
    assert_eq!(numbers, vec![1.0]);
    let mut numbers: Vec<f64> = vec![];
    assert_eq!(
        apply_operator(&mut numbers, '(', &zero, &compute),
        Err(EvalError::InsufficientOperands)
    );
    let mut numbers = vec![9.0, 1.0, 0.0];
    assert_eq!(apply_operator(&mut numbers, '/', &zero, &compute), Err(EvalError::DivisionByZero));
    assert_eq!(numbers, vec![9.0]);
    let mut numbers = vec![9.0, 1.0, 2.0];
    assert_eq!(apply_operator(&mut numbers, '(', &zero, &compute), Err(EvalError::UnknownOperator));
    assert_eq!(numbers, vec![9.0]);
    let mut numbers = vec![0.0, 1.0];
    assert_eq!(apply_operator(&mut numbers, '/', &zero, &compute), Ok(()));
    assert_eq!(numbers, vec![0.0]);
}

#[test]
fn evaluate_takes_tokens() {
    let tokens = vec![num("3"), op('+'), num("4"), op('*'), num("2")];
    assert_eq!(evaluate(&tokens, read, zero, compute), Ok(11.0));
    let tokens = vec![num("8"), op('/'), num("0")];
    assert_eq!(evaluate(&tokens, read, zero, compute), Err(EvalError::DivisionByZero));
    let tokens = vec![num("8"), num("2"), op('x')];
    assert_eq!(evaluate(&tokens, read, zero, compute), Err(EvalError::UnknownOperator));
}

#[test]
fn evaluate_with_integers() {
    let result = calculate(
        "7 - 2 * 3",
        |text: &str| text.parse::<i64>().unwrap(),
        |value: &i64| *value == 0,
        |op: char, a: i64, b: i64| match op {
            '+' => a + b,
            '-' => a - b,
            '*' => a * b,
            _ => a / b,
        },
    );
    assert_eq!(result, Ok(1));
}

#[test]
fn the_steps_come_in_postfix_order() {
    let result = calculate(
        "1 + 2 * 3 - 4 / 5",
        |text: &str| text.to_string(),
        |_: &String| false,
        |op: char, a: String, b: String| format!("{a} {b} {op}"),
    );
    assert_eq!(result, Ok("1 2 3 * + 4 5 / -".to_string()));
}

#[test]
fn messages() {
    assert_eq!(EvalError::InvalidCharacter('a').message(), "Invalid character: a");
    assert_eq!(EvalError::InsufficientOperands.message(), "Not enough operands");
    assert_eq!(EvalError::DivisionByZero.message(), "Division by zero");
    assert_eq!(EvalError::UnknownOperator.message(), "Unknown operator");
    assert_eq!(EvalError::IncompleteExpression.message(), "Incomplete expression");
    assert_eq!(calc("2 $ 3").unwrap_err().message(), "Invalid character: $");
}

#[test]
fn tokens_spell_the_text_without_its_spaces() {
    let text = " 12 + 3.5*( 4 -1)/ 2 .. 7";
    let mut spelled = String::new();
    for token in tokenize(text).unwrap() {
        match token {
            Token::Number(digits) => spelled.push_str(&digits),
            Token::Operator(symbol) => spelled.push(symbol),
        }
    }
    assert_eq!(spelled, "12+3.5*(4-1)/2..7");
}

#[test]
fn a_space_inside_a_number_parts_it() {
    assert_eq!(calc("12 * 2"), Ok(24.0));
    assert_eq!(calc("1 2 * 2"), Err(EvalError::IncompleteExpression));
    assert_ne!(tokenize("12 * 2"), tokenize("1 2 * 2"));
}

#[test]
fn operand_or_symbol() {
    assert_eq!(num("12.5").as_operand(), Some("12.5"));
    assert_eq!(num("1.2.3").as_operand(), None);
    assert_eq!(op('+').as_operand(), None);
    assert_eq!(num("1.2.3").symbol(), '1');
    assert_eq!(num(".").symbol(), '.');
    assert_eq!(op('/').symbol(), '/');
    assert_eq!(op('(').symbol(), '(');
}

#[test]
fn operands_left_over_are_an_error() {
    assert_eq!(calc("3 4"), Err(EvalError::IncompleteExpression));
    assert_eq!(calc("1 + 2 3"), Err(EvalError::IncompleteExpression));
    assert_eq!(calc("7 8 9"), Err(EvalError::IncompleteExpression));
    assert_eq!(calc("1 2 3 +"), Err(EvalError::IncompleteExpression));
    assert_eq!(calc("1 2 3 + *"), Ok(7.0));
    let tokens = vec![num("3"), num("4")];
    assert_eq!(evaluate(&tokens, read, zero, compute), Err(EvalError::IncompleteExpression));
    let tokens = vec![num("3")];
    assert_eq!(evaluate(&tokens, read, zero, compute), Ok(3.0));
}

#[test]
fn an_earlier_error_comes_before_operands_left_over() {
    assert_eq!(calc("1 2 3 4 / 0"), Err(EvalError::DivisionByZero));
    assert_eq!(calc("1 2 3 ("), Err(EvalError::UnknownOperator));
}

#[test]
fn a_symbol_that_is_no_operator_always_ends_in_an_error() {
    let texts = ["(1)", "1 + (2)", "((1 + 2))", "2 * (3 + 4) - 1", ")", "1 . 2", "1 + 2.3.4", "()"];
    for text in texts {
        let result = calc(text);
        assert!(
            result == Err(EvalError::InsufficientOperands)
                || result == Err(EvalError::UnknownOperator),
            "{text}: {result:?}"
        );
    }
}

#[test]
fn number_texts_are_those_that_read_as_floats_up_to_six_characters() {
    let alphabet = ['0', '7', '9', '.'];
    let mut texts = vec![String::new()];
    let mut checked = 0;
    for _ in 0..6 {
        let mut longer = Vec::new();
        for text in &texts {
            for c in alphabet {
                let mut next = text.clone();
                next.push(c);
                assert_eq!(denotes_number(&next), next.parse::<f64>().is_ok(), "{next}");
                checked += 1;
                longer.push(next);
            }
        }
        texts = longer;
    }
    assert_eq!(checked, 4 + 16 + 64 + 256 + 1024 + 4096);
}

#[test]
fn every_operator_once_over() {
    assert_eq!(calc("1 + 2 - 3 * 4 / 5"), Ok(1.0 + 2.0 - 3.0 * 4.0 / 5.0));
    assert_eq!(calc("0.1 + 0.2"), Ok(0.1 + 0.2));
    assert_eq!(calc("1 / 3"), Ok(1.0 / 3.0));
    assert_eq!(calc("0 / 5"), Ok(0.0));
}
