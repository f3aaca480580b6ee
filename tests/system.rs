use trecs::fetch::{Access, ComponentView, Shape};
use trecs::query::{Filter, Query, World};
use trecs::system::{RunOnce, System, SystemKind};
use trecs::alias::AliasConflict;

const I32: u64 = 1;
const STRING: u64 = 2;
const BOOL: u64 = 3;

fn world() -> World {
    let mut w = World::new();
    assert!(w.add_row(vec![I32, STRING]));
    assert!(w.add_row(vec![I32]));
    assert!(w.add_row(vec![I32, STRING, BOOL]));
    w
}

fn query(shape: Shape) -> Query {
    Query::new(shape, Filter::new())
}

#[test]
fn add_row_refuses_unsorted_index() {
    let mut w = World::new();
    assert!(!w.add_row(vec![STRING, I32]));
    assert!(!w.add_row(vec![I32, I32]));
    assert_eq!(w.len(), 0);
    assert!(w.add_row(vec![]));
    assert_eq!(w.len(), 1);
}

#[test]
fn query_yields_matching_rows_in_order() {
    let w = world();
    let q = query(Shape::Tuple(vec![Shape::Read(I32), Shape::Read(STRING)]));
    let got = q.into_eiter(&w);
    assert_eq!(got.len(), 2);
    assert_eq!(got[0].row, 0);
    assert_eq!(got[1].row, 2);
    assert_eq!(
        got[1].views,
        vec![
            ComponentView { slot: 0, id: I32, access: Access::Read },
            ComponentView { slot: 1, id: STRING, access: Access::Read },
        ]
    );
}

#[test]
fn filter_with_and_without() {
    let w = world();
    let q = Query::new(Shape::Write(I32), Filter::new().with(STRING).without(BOOL));
    let got = q.into_eiter(&w);
    assert_eq!(got.len(), 1);
    assert_eq!(got[0].row, 0);
    assert_eq!(got[0].views, vec![ComponentView { slot: 0, id: I32, access: Access::Write }]);
    let f = Filter::new().without(STRING);
    assert!(f.accepts(&vec![I32]));
    assert!(!f.accepts(&vec![I32, STRING]));
}

#[test]
fn conflicting_parameters_refuse_registration() {
    let params = vec![query(Shape::Write(I32)), query(Shape::Read(I32))];
    match System::new(params, SystemKind::Normal) {
        Err(e) => assert_eq!(e, AliasConflict { id: I32 }),
        Ok(_) => panic!("a conflicting system was registered"),
    }
}

#[test]
fn compound_double_claim_registers_but_never_resolves() {
    let params = vec![query(Shape::Tuple(vec![Shape::Write(I32), Shape::Read(I32)]))];
    let mut sys = System::new(params, SystemKind::Normal).ok().unwrap();
    match sys.run_once(&world()) {
        RunOnce::Invoke(args) => {
            assert_eq!(args.len(), 1);
            assert!(args[0].is_empty());
        }
        RunOnce::Pending => panic!("a normal system never waits"),
    }
}

#[test]
fn scenario_read_i32_and_string() {
    let mut w = World::new();
    assert!(w.add_row(vec![I32, STRING]));
    let params = vec![query(Shape::Tuple(vec![Shape::Read(I32), Shape::Read(STRING)]))];
    let mut sys = System::new(params, SystemKind::Normal).ok().unwrap();
    match sys.run_once(&w) {
        RunOnce::Invoke(args) => {
            assert_eq!(args[0].len(), 1);
            assert_eq!(args[0][0].views.len(), 2);
        }
        RunOnce::Pending => panic!("a normal system never waits"),
    }
    let two = vec![query(Shape::Write(I32)), query(Shape::Read(I32))];
    assert_eq!(System::new(two, SystemKind::Normal).err(), Some(AliasConflict { id: I32 }));
    let one = vec![query(Shape::Tuple(vec![Shape::Write(I32), Shape::Read(I32)]))];
    assert!(System::new(one, SystemKind::Normal).is_ok());
}

#[test]
fn normal_system_invokes_every_time() {
    let w = world();
    let mut sys = System::new(vec![query(Shape::Read(BOOL))], SystemKind::Normal).ok().unwrap();
    for _ in 0..3 {
        match sys.run_once(&w) {
            RunOnce::Invoke(args) => assert_eq!(args[0].len(), 1),
            RunOnce::Pending => panic!("a normal system never waits"),
        }
        assert!(!sys.is_pending());
    }
}

#[test]
fn async_system_waits_for_its_deferred_work() {
    let w = world();
    let params = vec![query(Shape::Read(I32)), query(Shape::Read(STRING))];
    let mut sys = System::new(params, SystemKind::Async).ok().unwrap();
    assert!(!sys.is_pending());
    match sys.run_once(&w) {
        RunOnce::Invoke(args) => {
            assert_eq!(args.len(), 2);
            assert_eq!(args[0].len(), 3);
            assert_eq!(args[1].len(), 2);
        }
        RunOnce::Pending => panic!("nothing was outstanding"),
    }
    assert!(sys.is_pending());
    assert!(matches!(sys.run_once(&w), RunOnce::Pending));
    assert!(matches!(sys.run_once(&w), RunOnce::Pending));
    sys.complete();
    assert!(!sys.is_pending());
    assert!(matches!(sys.run_once(&w), RunOnce::Invoke(_)));
}
