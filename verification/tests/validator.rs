use cortex_fusion::operation::OperationIr;
use cortex_fusion::validator::{OperationsValidator, ValidatorState};

fn op(input: u64, out: u64) -> OperationIr {
    OperationIr::new(1, input, out)
}

#[test]
fn a_validator_is_found_when_the_last_operation_matches() {
    let reference = vec![op(0, 1), op(1, 2)];
    let mut v = OperationsValidator::new(7usize);
    v.update(&op(0, 1), 0, &reference);
    assert_eq!(v.state, ValidatorState::Validating);
    v.update(&op(1, 2), 1, &reference);
    assert_eq!(v.state, ValidatorState::Found { size: 2 });
    assert_eq!(v.id, 7);
}

#[test]
fn a_different_operation_invalidates_and_nothing_revives_it() {
    let reference = vec![op(0, 1), op(1, 2)];
    let mut v = OperationsValidator::new(0usize);
    v.update(&op(0, 9), 0, &reference);
    assert_eq!(v.state, ValidatorState::Invalidated);
    v.update(&op(1, 2), 1, &reference);
    assert_eq!(v.state, ValidatorState::Invalidated);
}

#[test]
fn an_operation_past_the_reference_invalidates() {
    let reference = vec![op(0, 1)];
    let mut v = OperationsValidator::new(0usize);
    v.update(&op(0, 1), 3, &reference);
    assert_eq!(v.state, ValidatorState::Invalidated);
}

#[test]
fn a_found_validator_stays_found() {
    let reference = vec![op(0, 1)];
    let mut v = OperationsValidator::new(0usize);
    v.update(&op(0, 1), 0, &reference);
    assert_eq!(v.state, ValidatorState::Found { size: 1 });
    v.update(&op(4, 4), 1, &reference);
    assert_eq!(v.state, ValidatorState::Found { size: 1 });
}

#[test]
fn the_largest_position_is_past_any_reference() {
    let reference = vec![op(0, 1)];
    let mut v = OperationsValidator::new(0usize);
    v.update(&op(0, 1), usize::MAX, &reference);
    assert_eq!(v.state, ValidatorState::Invalidated);
}
