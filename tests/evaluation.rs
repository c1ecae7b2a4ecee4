use arith_arena::evaluation::{evaluate_line, evaluate_lines, LineError};
use arith_arena::expressions::DivideError;
use arith_arena::parser::{ParseError, TokenizeError};

#[test]
fn end_to_end_addition() {
    assert_eq!(evaluate_line("1+2"), Ok(3));
}

#[test]
fn each_error_kind_per_line() {
    assert_eq!(evaluate_line("1?2"), Err(LineError::Tokenize(TokenizeError::InvalidCharacter(1))));
    assert_eq!(evaluate_line("1**2"), Err(LineError::Tokenize(TokenizeError::AdjacentOperators(2))));
    assert_eq!(evaluate_line(""), Err(LineError::Parse(ParseError::Empty)));
    assert_eq!(evaluate_line("1+"), Err(LineError::Parse(ParseError::MissingOperand)));
    assert_eq!(evaluate_line("12"), Err(LineError::Parse(ParseError::MissingOperator)));
    assert_eq!(evaluate_line("8/0"), Err(LineError::Divide(DivideError::DivisionByZero)));
    assert_eq!(evaluate_line("7/2"), Err(LineError::Divide(DivideError::DivideNotEvenly)));
    assert_eq!(evaluate_line("9*9*9*9*9*9*9*9*9*9"), Err(LineError::Overflow));
    assert_eq!(evaluate_line("9*9*9*9*9*9*9*9*9"), Ok(387420489));
}

#[test]
fn lines_keep_their_order() {
    let lines = vec![
        "8-3-2".to_string(),
        "2+3*4".to_string(),
        "1/0".to_string(),
        "0-9/3".to_string(),
    ];
    assert_eq!(
        evaluate_lines(&lines),
        vec![Ok(3), Ok(14), Err(LineError::Divide(DivideError::DivisionByZero)), Ok(-3)]
    );
}
