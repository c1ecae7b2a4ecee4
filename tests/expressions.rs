use arith_arena::arena::Arena;
use arith_arena::expressions::DivideError::{DivideNotEvenly, DivisionByZero};
use arith_arena::expressions::Expression::{Operation, Value};
use arith_arena::expressions::OperationType::{Add, Divide, Multiply, Subtract};

#[test]
fn test_addition() {
    let mut arena = Arena::new();

    let three = arena.add_node(Value(3));
    let four = arena.add_node(Value(4));

    let expr = Operation(Add, three, four);
    assert_eq!(expr.interpret(&arena), Ok(7));
}

#[test]
fn test_subtraction() {
    let mut arena = Arena::new();

    let ten = arena.add_node(Value(10));
    let four = arena.add_node(Value(4));

    let expr = Operation(Subtract, ten, four);
    assert_eq!(expr.interpret(&arena), Ok(6));
}

#[test]
fn test_multiplication() {
    let mut arena = Arena::new();

    let three = arena.add_node(Value(3));
    let four = arena.add_node(Value(4));

    let expr = Operation(Multiply, three, four);
    assert_eq!(expr.interpret(&arena), Ok(12));
}

#[test]
fn test_division() {
    let mut arena = Arena::new();

    let eight = arena.add_node(Value(8));
    let two = arena.add_node(Value(2));

    let expr = Operation(Divide, eight, two);
    assert_eq!(expr.interpret(&arena), Ok(4));
}

#[test]
fn test_division_by_zero() {
    let mut arena = Arena::new();

    let eight = arena.add_node(Value(8));
    let zero = arena.add_node(Value(0));

    let expr = Operation(Divide, eight, zero);
    assert_eq!(expr.interpret(&arena), Err(DivisionByZero));
}

#[test]
fn test_divide_not_evenly() {
    let mut arena = Arena::new();

    let seven = arena.add_node(Value(7));
    let two = arena.add_node(Value(2));

    let expr = Operation(Divide, seven, two);
    assert_eq!(expr.interpret(&arena), Err(DivideNotEvenly));
}

#[test]
fn test_nested_operations() {
    let mut arena = Arena::new();

    let two = arena.add_node(Value(2));
    let three = arena.add_node(Value(3));

    let add = arena.add_node(Operation(Add, two, three));

    let five = arena.add_node(Value(5));

    let multiply = Operation(Multiply, add, five);
    assert_eq!(multiply.interpret(&arena), Ok(25));
}

#[test]
fn divide_exact_for_all_digits() {
    for a in 0..=9u8 {
        for b in 1..=9u8 {
            let mut arena = Arena::new();
            let l = arena.add_node(Value(a));
            let r = arena.add_node(Value(b));
            let expected = if a % b == 0 { Ok((a / b) as i32) } else { Err(DivideNotEvenly) };
            assert_eq!(Operation(Divide, l, r).interpret(&arena), expected);
        }
        let mut arena = Arena::new();
        let l = arena.add_node(Value(a));
        let r = arena.add_node(Value(0));
        assert_eq!(Operation(Divide, l, r).interpret(&arena), Err(DivisionByZero));
    }
}

#[test]
fn identities_on_wide_digits() {
    let mut arena = Arena::new();
    let a = arena.add_node(Value(255));
    let b = arena.add_node(Value(200));
    assert_eq!(Operation(Add, a, b).interpret(&arena), Ok(455));
    assert_eq!(Operation(Subtract, b, a).interpret(&arena), Ok(-55));
    assert_eq!(Operation(Multiply, a, b).interpret(&arena), Ok(51000));
    assert_eq!(Value(9).interpret(&arena), Ok(9));
}

#[test]
fn interpret_twice_gives_same_result() {
    let mut arena = Arena::new();
    let seven = arena.add_node(Value(7));
    let two = arena.add_node(Value(2));
    let sum = arena.add_node(Operation(Add, seven, two));
    let three = arena.add_node(Value(3));
    let expr = Operation(Divide, sum, three);
    let first = expr.interpret(&arena);
    let second = expr.interpret(&arena);
    assert_eq!(first, Ok(3));
    assert_eq!(first, second);
    let bad = Operation(Divide, seven, two);
    assert_eq!(bad.interpret(&arena), bad.interpret(&arena));
}

#[test]
fn left_error_wins() {
    let mut arena = Arena::new();
    let one = arena.add_node(Value(1));
    let zero = arena.add_node(Value(0));
    let two = arena.add_node(Value(2));
    let by_zero = arena.add_node(Operation(Divide, one, zero));
    let uneven = arena.add_node(Operation(Divide, one, two));
    assert_eq!(Operation(Add, by_zero, uneven).interpret(&arena), Err(DivisionByZero));
    assert_eq!(Operation(Add, uneven, by_zero).interpret(&arena), Err(DivideNotEvenly));
}

#[test]
fn checked_interpret_reports_overflow() {
    let mut arena = Arena::new();
    let mut acc = arena.add_node(Value(9));
    let nine = arena.add_node(Value(9));
    for _ in 0..9 {
        acc = arena.add_node(Operation(Multiply, acc, nine));
    }
    // 9^10 does not fit in an i32
    assert_eq!(arena.get(acc).value().checked_interpret(&arena), None);
    let small = Operation(Multiply, nine, nine);
    assert_eq!(small.checked_interpret(&arena), Some(Ok(81)));
}
