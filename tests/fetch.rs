use trecs::fetch::{resolve, Access, ComponentView, MappingTable, Shape};

const I32: u64 = 10;
const STRING: u64 = 20;
const USIZE: u64 = 30;

fn slots(plan: &MappingTable) -> Vec<usize> {
    plan.as_node()
        .unwrap()
        .iter()
        .map(|p| *p.as_mapping().unwrap())
        .collect()
}

#[test]
fn resolves_two_distinct_reads() {
    let shape = Shape::Tuple(vec![Shape::Read(I32), Shape::Read(STRING)]);
    let plan = resolve(&shape, &vec![I32, STRING]).unwrap();
    assert_eq!(slots(&plan), vec![0, 1]);
}

#[test]
fn read_and_write_of_one_type_do_not_resolve() {
    let shape = Shape::Tuple(vec![Shape::Read(I32), Shape::Write(I32)]);
    assert!(resolve(&shape, &vec![I32]).is_none());
    assert!(resolve(&shape, &vec![I32, STRING]).is_none());
}

#[test]
fn missing_type_does_not_resolve() {
    let shape = Shape::Tuple(vec![Shape::Read(I32), Shape::Read(USIZE)]);
    assert!(resolve(&shape, &vec![I32, STRING]).is_none());
    assert!(resolve(&Shape::Write(USIZE), &vec![]).is_none());
}

#[test]
fn slots_follow_the_row_index_not_the_request_order() {
    let shape = Shape::Tuple(vec![Shape::Write(USIZE), Shape::Read(I32)]);
    let plan = resolve(&shape, &vec![I32, STRING, USIZE]).unwrap();
    assert_eq!(slots(&plan), vec![2, 0]);
}

#[test]
fn single_leaf_resolves_to_a_mapping() {
    let plan = resolve(&Shape::Read(STRING), &vec![I32, STRING, USIZE]).unwrap();
    assert_eq!(plan.as_mapping(), Some(&1));
    assert!(plan.as_node().is_none());
}

#[test]
fn nested_shapes_resolve_as_trees() {
    let shape = Shape::Tuple(vec![
        Shape::Read(STRING),
        Shape::Tuple(vec![Shape::Write(USIZE), Shape::Read(I32)]),
    ]);
    let plan = resolve(&shape, &vec![I32, STRING, USIZE]).unwrap();
    let node = plan.as_node().unwrap();
    assert_eq!(node.len(), 2);
    assert_eq!(node[0].as_mapping(), Some(&1));
    assert_eq!(slots(&node[1]), vec![2, 0]);
}

#[test]
fn nested_double_claim_does_not_resolve() {
    let shape = Shape::Tuple(vec![
        Shape::Read(STRING),
        Shape::Tuple(vec![Shape::Read(I32), Shape::Read(STRING)]),
    ]);
    assert!(resolve(&shape, &vec![I32, STRING]).is_none());
}

#[test]
fn empty_tuple_resolves_to_an_empty_node() {
    let plan = resolve(&Shape::Tuple(vec![]), &vec![]).unwrap();
    assert_eq!(plan.as_node().unwrap().len(), 0);
}

#[test]
fn rows_with_equal_identities_give_equal_plans() {
    let shape = Shape::Tuple(vec![Shape::Read(STRING), Shape::Write(I32)]);
    let a = resolve(&shape, &vec![I32, STRING, USIZE]).unwrap();
    let b = resolve(&shape, &vec![I32, STRING, USIZE]).unwrap();
    assert_eq!(slots(&a), slots(&b));
    assert_eq!(slots(&a), vec![1, 0]);
}

#[test]
fn contain_consumes_matched_identities() {
    let ids = vec![I32, STRING, USIZE];
    let mut available = ids.clone();
    let plan = Shape::Read(STRING).contain(&ids, &mut available).unwrap();
    assert_eq!(plan.as_mapping(), Some(&1));
    assert_eq!(available, vec![I32, USIZE]);
    assert!(Shape::Read(STRING).contain(&ids, &mut available).is_none());
    let plan = Shape::Read(USIZE).contain(&ids, &mut available).unwrap();
    assert_eq!(plan.as_mapping(), Some(&2));
    assert_eq!(available, vec![I32]);
}

#[test]
fn build_yields_views_of_the_requested_types() {
    let ids = vec![I32, STRING, USIZE];
    let shape = Shape::Tuple(vec![
        Shape::Write(USIZE),
        Shape::Tuple(vec![Shape::Read(I32)]),
    ]);
    let plan = resolve(&shape, &ids).unwrap();
    let mut views = Vec::new();
    shape.build(&plan, &ids, &mut views);
    assert_eq!(
        views,
        vec![
            ComponentView { slot: 2, id: USIZE, access: Access::Write },
            ComponentView { slot: 0, id: I32, access: Access::Read },
        ]
    );
    for v in &views {
        assert_eq!(ids[v.slot], v.id);
    }
}

#[test]
fn collect_requests_lists_leaves_in_order() {
    let shape = Shape::Tuple(vec![
        Shape::Write(USIZE),
        Shape::Tuple(vec![Shape::Read(I32), Shape::Read(USIZE)]),
    ]);
    let mut out = Vec::new();
    shape.collect_requests(&mut out);
    let got: Vec<(u64, Access)> = out.iter().map(|r| (r.id, r.access)).collect();
    assert_eq!(got, vec![(USIZE, Access::Write), (I32, Access::Read), (USIZE, Access::Read)]);
}
