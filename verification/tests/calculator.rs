use rustylator::Calculator;
use rustylator::Events;

fn enter(c: &mut Calculator, digits: &[i64]) {
    for &d in digits {
        c.dispatch(Events::Number(d));
    }
}

#[test]
fn starts_at_zero() {
    let c = Calculator::default();
    assert_eq!(c.display(), "0");
}

#[test]
fn digit_entry_concatenates() {
    let mut c = Calculator::default();
    enter(&mut c, &[1, 0, 2, 4]);
    assert_eq!(c.display(), "1024");
}

#[test]
fn precedence_multiplication_binds_tighter() {
    let mut c = Calculator::default();
    c.dispatch(Events::Number(2));
    c.dispatch(Events::Add);
    c.dispatch(Events::Number(3));
    c.dispatch(Events::Multiply);
    c.dispatch(Events::Number(4));
    c.dispatch(Events::Eq);
    assert_eq!(c.display(), "14");
}

#[test]
fn left_to_right_among_equal_precedence() {
    let mut c = Calculator::default();
    c.dispatch(Events::Number(8));
    c.dispatch(Events::Subtract);
    c.dispatch(Events::Number(3));
    c.dispatch(Events::Subtract);
    c.dispatch(Events::Number(2));
    c.dispatch(Events::Eq);
    assert_eq!(c.display(), "3");
}

#[test]
fn division_truncates_toward_zero() {
    let mut c = Calculator::default();
    c.dispatch(Events::Number(7));
    c.dispatch(Events::Divide);
    c.dispatch(Events::Number(2));
    c.dispatch(Events::Eq);
    assert_eq!(c.display(), "3");
}

#[test]
fn backspace_drops_exactly_the_last_digit() {
    let mut c = Calculator::default();
    enter(&mut c, &[1, 2, 3]);
    c.dispatch(Events::Backspace);
    assert_eq!(c.display(), "12");
}

#[test]
fn backspace_on_negative_rounds_toward_zero() {
    let mut c = Calculator::default();
    enter(&mut c, &[1, 9]);
    c.dispatch(Events::Negate);
    assert_eq!(c.display(), "-19");
    c.dispatch(Events::Backspace);
    assert_eq!(c.display(), "-1");
}

#[test]
fn negate_toggles_and_restores() {
    let mut c = Calculator::default();
    enter(&mut c, &[4, 2]);
    c.dispatch(Events::Negate);
    assert_eq!(c.display(), "-42");
    c.dispatch(Events::Negate);
    assert_eq!(c.display(), "42");
}

#[test]
fn reset_clears_accumulator_and_history() {
    let mut c = Calculator::default();
    c.dispatch(Events::Number(5));
    c.dispatch(Events::Add);
    c.dispatch(Events::Number(3));
    c.dispatch(Events::Reset);
    assert_eq!(c.display(), "0");
    // the pending "5 +" is gone: evaluating now just returns the accumulator
    c.dispatch(Events::Number(4));
    c.dispatch(Events::Eq);
    assert_eq!(c.display(), "4");
}

#[test]
fn evaluate_then_digit_starts_fresh() {
    let mut c = Calculator::default();
    c.dispatch(Events::Number(2));
    c.dispatch(Events::Add);
    c.dispatch(Events::Number(3));
    c.dispatch(Events::Eq);
    assert_eq!(c.display(), "5");
    // the result is not extended: the next digit starts a fresh number
    c.dispatch(Events::Number(7));
    assert_eq!(c.display(), "7");
    // and the history is empty: evaluating again yields the digit itself
    c.dispatch(Events::Eq);
    assert_eq!(c.display(), "7");
}

#[test]
fn evaluate_then_operator_continues_with_the_result() {
    let mut c = Calculator::default();
    c.dispatch(Events::Number(2));
    c.dispatch(Events::Add);
    c.dispatch(Events::Number(3));
    c.dispatch(Events::Eq);
    // an operator press commits the result as the next left operand
    c.dispatch(Events::Multiply);
    c.dispatch(Events::Number(4));
    c.dispatch(Events::Eq);
    assert_eq!(c.display(), "20");
}

#[test]
fn evaluate_then_backspace_edits_the_result() {
    let mut c = Calculator::default();
    enter(&mut c, &[2, 5]);
    c.dispatch(Events::Add);
    enter(&mut c, &[1, 0, 0]);
    c.dispatch(Events::Eq);
    assert_eq!(c.display(), "125");
    // backspace edits the result in place, and digits then extend it again
    c.dispatch(Events::Backspace);
    assert_eq!(c.display(), "12");
    c.dispatch(Events::Number(9));
    assert_eq!(c.display(), "129");
}

#[test]
fn evaluate_to_zero_then_digit_starts_fresh() {
    let mut c = Calculator::default();
    c.dispatch(Events::Number(5));
    c.dispatch(Events::Subtract);
    c.dispatch(Events::Number(5));
    c.dispatch(Events::Eq);
    assert_eq!(c.display(), "0");
    c.dispatch(Events::Number(7));
    assert_eq!(c.display(), "7");
    // history is empty after the evaluation: evaluating again yields the digit
    c.dispatch(Events::Eq);
    assert_eq!(c.display(), "7");
}

#[test]
fn divide_by_zero_leaves_state_untouched() {
    let mut c = Calculator::default();
    c.dispatch(Events::Number(7));
    c.dispatch(Events::Divide);
    c.dispatch(Events::Number(0));
    c.dispatch(Events::Eq);
    assert_eq!(c.display(), "0");
    // the pending "7 /" survived: a usable divisor still completes it
    c.dispatch(Events::Number(3));
    c.dispatch(Events::Eq);
    assert_eq!(c.display(), "2");
}

#[test]
fn overflowing_evaluation_is_a_no_op() {
    let mut c = Calculator::default();
    enter(&mut c, &[9, 9, 9, 9, 9, 9, 9, 9, 9, 9]);
    c.dispatch(Events::Multiply);
    enter(&mut c, &[9, 9, 9, 9, 9, 9, 9, 9, 9, 9]);
    c.dispatch(Events::Eq);
    assert_eq!(c.display(), "9999999999");
}

#[test]
fn digits_beyond_the_cap_are_dropped() {
    let mut c = Calculator::default();
    enter(&mut c, &[9, 9, 9, 9, 9, 9, 9, 9, 9, 9]);
    assert_eq!(c.display(), "9999999999");
    // exactly at the cap, one more digit still lands
    c.dispatch(Events::Number(9));
    assert_eq!(c.display(), "99999999999");
    // above the cap, digits are silently ignored
    c.dispatch(Events::Number(9));
    assert_eq!(c.display(), "99999999999");
}

#[test]
fn negate_on_zero_stays_zero() {
    let mut c = Calculator::default();
    c.dispatch(Events::Negate);
    assert_eq!(c.display(), "0");
}

#[test]
fn backspace_on_single_digit_leaves_zero() {
    let mut c = Calculator::default();
    c.dispatch(Events::Number(5));
    c.dispatch(Events::Backspace);
    assert_eq!(c.display(), "0");
}

#[test]
fn idle_changes_nothing() {
    let mut c = Calculator::default();
    c.dispatch(Events::Number(5));
    c.dispatch(Events::Idle);
    assert_eq!(c.display(), "5");
}

#[test]
fn minimum_value_survives_negate() {
    let mut c = Calculator::default();
    enter(&mut c, &[8, 5, 8, 9, 9, 3, 4, 5, 9, 2]);
    c.dispatch(Events::Multiply);
    enter(&mut c, &[1, 0, 7, 3, 7, 4, 1, 8, 2, 4]);
    c.dispatch(Events::Negate);
    c.dispatch(Events::Eq);
    assert_eq!(c.display(), "-9223372036854775808");
    // negating the minimum has no 64-bit counterpart and keeps the value
    c.dispatch(Events::Negate);
    assert_eq!(c.display(), "-9223372036854775808");
}
