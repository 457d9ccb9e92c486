use rustseq::{build, is_well_formed, BlockLink, OutlineNode, StructuralIntegrityError};

fn link(id: i64, parent: Option<i64>, next: Option<i64>) -> BlockLink {
    BlockLink { id, parent_id: parent, next_sibling_id: next }
}

fn node(id: i64, children: Vec<OutlineNode>) -> OutlineNode {
    OutlineNode { id, children }
}

#[test]
fn builds_the_tree_of_four_blocks() {
    let links = vec![
        link(1, None, None),
        link(2, Some(1), Some(3)),
        link(3, Some(1), None),
        link(4, Some(3), None),
    ];
    assert!(is_well_formed(&links));
    let tree = build(&links).unwrap();
    let expected = node(0, vec![node(1, vec![node(2, vec![]), node(3, vec![node(4, vec![])])])]);
    assert_eq!(tree, expected);
    assert_eq!(tree.preorder(), vec![0, 1, 2, 3, 4]);
}

#[test]
fn builds_the_bare_root_from_no_links() {
    let links: Vec<BlockLink> = Vec::new();
    let tree = build(&links).unwrap();
    assert_eq!(tree, node(0, vec![]));
    assert_eq!(tree.preorder(), vec![0]);
}

#[test]
fn child_order_follows_the_sibling_chain_not_the_input_order() {
    let links = vec![
        link(30, None, None),
        link(10, None, Some(20)),
        link(20, None, Some(30)),
        link(7, Some(20), None),
        link(5, Some(20), Some(7)),
    ];
    let tree = build(&links).unwrap();
    let expected = node(
        0,
        vec![node(10, vec![]), node(20, vec![node(5, vec![]), node(7, vec![])]), node(30, vec![])],
    );
    assert_eq!(tree, expected);
}

#[test]
fn a_parent_of_zero_names_the_page_root() {
    let links = vec![link(2, Some(0), None), link(1, None, Some(2))];
    let tree = build(&links).unwrap();
    assert_eq!(tree, node(0, vec![node(1, vec![]), node(2, vec![])]));
}

#[test]
fn a_next_sibling_under_another_parent_ends_the_chain() {
    let links = vec![link(1, None, Some(2)), link(2, Some(1), None)];
    let tree = build(&links).unwrap();
    assert_eq!(tree, node(0, vec![node(1, vec![node(2, vec![])])]));
}

#[test]
fn a_next_sibling_that_is_missing_ends_the_chain() {
    let links = vec![link(1, None, Some(99))];
    let tree = build(&links).unwrap();
    assert_eq!(tree, node(0, vec![node(1, vec![])]));
}

#[test]
fn two_heads_are_reported_with_their_parent() {
    let links = vec![link(1, None, None), link(2, Some(1), None), link(3, Some(1), None)];
    assert_eq!(build(&links), Err(StructuralIntegrityError::MultipleHeads(1)));
}

#[test]
fn two_heads_under_the_page_root_are_reported_with_the_root() {
    let links = vec![link(1, None, None), link(2, None, None)];
    assert_eq!(build(&links), Err(StructuralIntegrityError::MultipleHeads(0)));
}

#[test]
fn the_first_second_head_in_the_sequence_is_reported() {
    let links = vec![
        link(1, None, None),
        link(10, Some(1), None),
        link(2, None, None),
        link(11, Some(1), None),
    ];
    assert_eq!(build(&links), Err(StructuralIntegrityError::MultipleHeads(0)));
    let links = vec![
        link(1, None, None),
        link(10, Some(1), None),
        link(11, Some(1), None),
        link(2, None, None),
    ];
    assert_eq!(build(&links), Err(StructuralIntegrityError::MultipleHeads(1)));
}

#[test]
fn a_block_that_follows_itself_is_a_cycle() {
    let links = vec![link(1, None, Some(1))];
    assert_eq!(build(&links), Err(StructuralIntegrityError::CycleDetected(0)));
}

#[test]
fn two_siblings_that_follow_each_other_are_a_cycle() {
    let links = vec![link(1, None, None), link(2, Some(1), Some(3)), link(3, Some(1), Some(2))];
    assert_eq!(build(&links), Err(StructuralIntegrityError::CycleDetected(1)));
}

#[test]
fn a_chain_that_runs_into_a_cycle_is_a_cycle() {
    let links = vec![
        link(1, None, None),
        link(2, Some(1), Some(3)),
        link(3, Some(1), Some(4)),
        link(4, Some(1), Some(3)),
    ];
    assert_eq!(build(&links), Err(StructuralIntegrityError::CycleDetected(1)));
}

#[test]
fn a_cycle_beside_a_good_chain_is_a_cycle() {
    let links = vec![
        link(1, None, None),
        link(2, Some(1), None),
        link(3, Some(1), Some(4)),
        link(4, Some(1), Some(3)),
    ];
    assert_eq!(build(&links), Err(StructuralIntegrityError::CycleDetected(1)));
}

#[test]
fn two_heads_are_reported_before_a_cycle() {
    let links = vec![
        link(5, None, Some(5)),
        link(1, Some(9), None),
        link(2, Some(9), None),
        link(9, None, None),
    ];
    assert_eq!(build(&links), Err(StructuralIntegrityError::MultipleHeads(9)));
}

#[test]
fn a_missing_parent_is_reported_with_the_block() {
    let links = vec![link(1, None, None), link(2, Some(42), None)];
    assert_eq!(build(&links), Err(StructuralIntegrityError::DanglingParent(2)));
}

#[test]
fn the_first_block_with_a_missing_parent_is_reported() {
    let links = vec![link(3, Some(41), None), link(1, None, None), link(2, Some(42), None)];
    assert_eq!(build(&links), Err(StructuralIntegrityError::DanglingParent(3)));
}

#[test]
fn a_cycle_is_reported_before_a_missing_parent() {
    let links = vec![link(2, Some(42), None), link(1, None, Some(1))];
    assert_eq!(build(&links), Err(StructuralIntegrityError::CycleDetected(0)));
}

#[test]
fn blocks_that_are_each_other_s_parent_are_a_cycle() {
    let links = vec![link(1, None, None), link(2, Some(3), None), link(3, Some(2), None)];
    assert_eq!(build(&links), Err(StructuralIntegrityError::CycleDetected(3)));
}

#[test]
fn a_block_that_is_its_own_parent_is_a_cycle() {
    let links = vec![link(7, Some(7), None)];
    assert_eq!(build(&links), Err(StructuralIntegrityError::CycleDetected(7)));
}

#[test]
fn well_formed_links_have_ids_of_their_own_and_not_the_root_s() {
    assert!(is_well_formed(&vec![link(1, None, None), link(2, None, None)]));
    assert!(!is_well_formed(&vec![link(1, None, None), link(1, Some(2), None)]));
    assert!(!is_well_formed(&vec![link(0, None, None)]));
    assert!(is_well_formed(&Vec::new()));
}

#[test]
fn a_long_chain_is_built_in_order() {
    let n: i64 = 2000;
    let mut links = Vec::new();
    let mut id = n;
    while id >= 1 {
        let next = if id < n { Some(id + 1) } else { None };
        links.push(link(id, None, next));
        id -= 1;
    }
    let tree = build(&links).unwrap();
    let ids: Vec<i64> = tree.children.iter().map(|c| c.id).collect();
    let expected: Vec<i64> = (1..=n).collect();
    assert_eq!(ids, expected);
}
