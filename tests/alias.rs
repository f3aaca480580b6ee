use trecs::alias::{AliasConflict, SystemState};
use trecs::fetch::{Access, Shape};

const T: u64 = 7;
const U: u64 = 8;

#[test]
fn two_reads_of_one_type_pass() {
    let mut state = SystemState::new();
    state.record(T, Access::Read);
    state.record(T, Access::Read);
    assert_eq!(state.validate(), Ok(()));
}

#[test]
fn read_and_write_of_one_type_conflict() {
    let mut state = SystemState::new();
    state.record(T, Access::Read);
    state.record(T, Access::Write);
    assert_eq!(state.validate(), Err(AliasConflict { id: T }));
}

#[test]
fn single_write_passes() {
    let mut state = SystemState::new();
    state.record(T, Access::Write);
    assert_eq!(state.validate(), Ok(()));
}

#[test]
fn two_writes_of_one_type_conflict() {
    let mut state = SystemState::new();
    state.record(U, Access::Read);
    state.record(T, Access::Write);
    state.record(T, Access::Write);
    assert_eq!(state.validate(), Err(AliasConflict { id: T }));
}

#[test]
fn writes_of_different_types_pass() {
    let mut state = SystemState::new();
    state.record(T, Access::Write);
    state.record(U, Access::Write);
    state.record(U + 1, Access::Read);
    assert_eq!(state.validate(), Ok(()));
}

#[test]
fn empty_scope_passes() {
    assert_eq!(SystemState::new().validate(), Ok(()));
}

#[test]
fn one_shape_contributes_one_record_per_type() {
    let mut state = SystemState::new();
    state.add_shape(&Shape::Tuple(vec![Shape::Write(T), Shape::Read(T)]));
    assert_eq!(state.validate(), Ok(()));
    state.add_shape(&Shape::Read(T));
    assert_eq!(state.validate(), Err(AliasConflict { id: T }));
}

#[test]
fn separate_shapes_conflict_across_parameters() {
    let mut state = SystemState::new();
    state.add_shape(&Shape::Write(T));
    state.add_shape(&Shape::Tuple(vec![Shape::Read(U), Shape::Read(T)]));
    assert_eq!(state.validate(), Err(AliasConflict { id: T }));
}
