use rustseq::{BlockLink, BlockRow, MutationError, OutlineNode, OutlineTree, RemovalPolicy};

fn node(id: i64, children: Vec<OutlineNode>) -> OutlineNode {
    OutlineNode { id, children }
}

fn row(id: i64, parent: Option<i64>, next: Option<i64>) -> BlockRow {
    BlockRow { id: Some(id), content: format!("block {}", id), parent_id: parent, sibling_id: next, page_id: Some(1) }
}

// 0 -> [1 -> [2, 3 -> [4, 5]], 6]
fn sample() -> OutlineTree {
    let rows = vec![
        row(1, None, Some(6)),
        row(2, Some(1), Some(3)),
        row(3, Some(1), None),
        row(4, Some(3), Some(5)),
        row(5, Some(3), None),
        row(6, None, None),
    ];
    OutlineTree::from_rows(&rows).unwrap()
}

fn sample_shape() -> OutlineNode {
    node(
        0,
        vec![
            node(1, vec![node(2, vec![]), node(3, vec![node(4, vec![]), node(5, vec![])])]),
            node(6, vec![]),
        ],
    )
}

#[test]
fn from_rows_takes_shape_and_contents() {
    let tree = sample();
    assert_eq!(tree.root(), &sample_shape());
    assert_eq!(tree.content(3), Some(&String::from("block 3")));
    assert_eq!(tree.content(0), None);
    assert_eq!(tree.content(7), None);
    assert!(tree.contains(5));
    assert!(!tree.contains(0));
    assert!(!tree.contains(7));
    assert_eq!(tree.first_block(), Some(1));
    assert_eq!(tree.preorder(), vec![0, 1, 2, 3, 4, 5, 6]);
}

#[test]
fn the_empty_tree_has_no_first_block() {
    let tree = OutlineTree::new();
    assert_eq!(tree.first_block(), None);
    assert_eq!(tree.root(), &node(0, vec![]));
}

#[test]
fn insert_child_puts_the_new_block_at_the_index() {
    let mut tree = sample();
    assert_eq!(tree.insert_child(3, 1, "new"), Ok(7));
    assert_eq!(
        tree.root(),
        &node(
            0,
            vec![
                node(1, vec![node(2, vec![]), node(3, vec![node(4, vec![]), node(7, vec![]), node(5, vec![])])]),
                node(6, vec![]),
            ],
        )
    );
    assert_eq!(tree.content(7), Some(&String::from("new")));
}

#[test]
fn insert_child_clamps_the_index_to_the_end() {
    let mut tree = sample();
    assert_eq!(tree.insert_child(0, 99, "last"), Ok(7));
    assert_eq!(tree.preorder(), vec![0, 1, 2, 3, 4, 5, 6, 7]);
    assert_eq!(tree.insert_child(0, 0, "first"), Ok(8));
    assert_eq!(tree.preorder(), vec![0, 8, 1, 2, 3, 4, 5, 6, 7]);
    assert_eq!(tree.first_block(), Some(8));
}

#[test]
fn insert_child_into_the_empty_tree_starts_at_one() {
    let mut tree = OutlineTree::new();
    assert_eq!(tree.insert_child(0, 0, "a"), Ok(1));
    assert_eq!(tree.insert_child(1, 5, "b"), Ok(2));
    assert_eq!(tree.root(), &node(0, vec![node(1, vec![node(2, vec![])])]));
}

#[test]
fn insert_child_under_an_unknown_parent_fails() {
    let mut tree = sample();
    assert_eq!(tree.insert_child(42, 0, "x"), Err(MutationError::UnknownBlock(42)));
    assert_eq!(tree.root(), &sample_shape());
    assert_eq!(tree.content(7), None);
}

#[test]
fn move_block_takes_the_subtree_along() {
    let mut tree = sample();
    assert_eq!(tree.move_block(3, 0, 0), Ok(()));
    assert_eq!(
        tree.root(),
        &node(
            0,
            vec![
                node(3, vec![node(4, vec![]), node(5, vec![])]),
                node(1, vec![node(2, vec![])]),
                node(6, vec![]),
            ],
        )
    );
    assert_eq!(tree.content(4), Some(&String::from("block 4")));
}

#[test]
fn move_block_within_one_parent_counts_without_the_block() {
    let mut tree = sample();
    assert_eq!(tree.move_block(2, 1, 1), Ok(()));
    assert_eq!(tree.preorder(), vec![0, 1, 3, 4, 5, 2, 6]);
    assert_eq!(tree.move_block(2, 1, 2), Err(MutationError::InvalidIndex));
    assert_eq!(tree.preorder(), vec![0, 1, 3, 4, 5, 2, 6]);
}

#[test]
fn move_block_under_itself_is_refused() {
    let mut tree = sample();
    assert_eq!(tree.move_block(3, 3, 0), Err(MutationError::CycleRejected));
    assert_eq!(tree.root(), &sample_shape());
}

#[test]
fn move_block_under_a_descendant_is_refused() {
    let mut tree = sample();
    assert_eq!(tree.move_block(1, 5, 0), Err(MutationError::CycleRejected));
    assert_eq!(tree.root(), &sample_shape());
    assert_eq!(tree.serialize(), sample().serialize());
}

#[test]
fn move_block_beyond_the_end_is_refused() {
    let mut tree = sample();
    assert_eq!(tree.move_block(6, 3, 3), Err(MutationError::InvalidIndex));
    assert_eq!(tree.root(), &sample_shape());
    assert_eq!(tree.move_block(6, 3, 2), Ok(()));
    assert_eq!(tree.preorder(), vec![0, 1, 2, 3, 4, 5, 6]);
    assert_eq!(tree.first_block(), Some(1));
}

#[test]
fn move_block_of_an_unknown_block_or_parent_fails() {
    let mut tree = sample();
    assert_eq!(tree.move_block(42, 1, 0), Err(MutationError::UnknownBlock(42)));
    assert_eq!(tree.move_block(0, 1, 0), Err(MutationError::UnknownBlock(0)));
    assert_eq!(tree.move_block(2, 42, 0), Err(MutationError::UnknownBlock(42)));
    assert_eq!(tree.move_block(42, 43, 0), Err(MutationError::UnknownBlock(42)));
    assert_eq!(tree.root(), &sample_shape());
}

#[test]
fn remove_with_keep_refuses_a_block_with_children() {
    let mut tree = sample();
    assert_eq!(tree.remove_block(3, RemovalPolicy::Keep), Err(MutationError::HasChildren));
    assert_eq!(tree.root(), &sample_shape());
    assert_eq!(tree.content(3), Some(&String::from("block 3")));
}

#[test]
fn remove_with_keep_removes_a_leaf() {
    let mut tree = sample();
    assert_eq!(tree.remove_block(2, RemovalPolicy::Keep), Ok(()));
    assert_eq!(tree.preorder(), vec![0, 1, 3, 4, 5, 6]);
    assert_eq!(tree.content(2), None);
}

#[test]
fn remove_with_promote_puts_the_children_in_place() {
    let mut tree = sample();
    assert_eq!(tree.remove_block(3, RemovalPolicy::PromoteChildren), Ok(()));
    assert_eq!(
        tree.root(),
        &node(
            0,
            vec![node(1, vec![node(2, vec![]), node(4, vec![]), node(5, vec![])]), node(6, vec![])],
        )
    );
    assert_eq!(tree.content(3), None);
    assert_eq!(tree.content(4), Some(&String::from("block 4")));
}

#[test]
fn remove_with_promote_keeps_the_siblings_around() {
    let mut tree = sample();
    assert_eq!(tree.remove_block(1, RemovalPolicy::PromoteChildren), Ok(()));
    assert_eq!(
        tree.root(),
        &node(
            0,
            vec![node(2, vec![]), node(3, vec![node(4, vec![]), node(5, vec![])]), node(6, vec![])],
        )
    );
    assert_eq!(tree.first_block(), Some(2));
}

#[test]
fn remove_with_delete_drops_the_subtree_and_its_contents() {
    let mut tree = sample();
    assert_eq!(tree.remove_block(3, RemovalPolicy::DeleteSubtree), Ok(()));
    assert_eq!(tree.root(), &node(0, vec![node(1, vec![node(2, vec![])]), node(6, vec![])]));
    assert_eq!(tree.content(3), None);
    assert_eq!(tree.content(4), None);
    assert_eq!(tree.content(5), None);
    assert_eq!(tree.content(2), Some(&String::from("block 2")));
}

#[test]
fn remove_of_an_unknown_block_fails() {
    let mut tree = sample();
    assert_eq!(tree.remove_block(42, RemovalPolicy::DeleteSubtree), Err(MutationError::UnknownBlock(42)));
    assert_eq!(tree.remove_block(0, RemovalPolicy::PromoteChildren), Err(MutationError::UnknownBlock(0)));
    assert_eq!(tree.remove_block(42, RemovalPolicy::Keep), Err(MutationError::UnknownBlock(42)));
    assert_eq!(tree.root(), &sample_shape());
}

#[test]
fn ids_are_not_used_again_after_a_removal() {
    let mut tree = sample();
    assert_eq!(tree.remove_block(6, RemovalPolicy::Keep), Ok(()));
    assert_eq!(tree.insert_child(0, 0, "again"), Ok(7));
}

#[test]
fn rename_content_changes_the_content_only() {
    let mut tree = sample();
    assert_eq!(tree.rename_content(4, "renamed"), Ok(()));
    assert_eq!(tree.content(4), Some(&String::from("renamed")));
    assert_eq!(tree.root(), &sample_shape());
    assert_eq!(tree.rename_content(42, "x"), Err(MutationError::UnknownBlock(42)));
    assert_eq!(tree.rename_content(0, "x"), Err(MutationError::UnknownBlock(0)));
    assert_eq!(tree.content(0), None);
}

#[test]
fn an_edited_tree_serialises_to_what_rebuilds_it() {
    let mut tree = sample();
    tree.move_block(3, 6, 0).unwrap();
    tree.insert_child(3, 1, "x").unwrap();
    tree.remove_block(1, RemovalPolicy::PromoteChildren).unwrap();
    let links = tree.serialize();
    assert_eq!(
        links,
        vec![
            BlockLink { id: 2, parent_id: None, next_sibling_id: Some(6) },
            BlockLink { id: 6, parent_id: None, next_sibling_id: None },
            BlockLink { id: 3, parent_id: Some(6), next_sibling_id: None },
            BlockLink { id: 4, parent_id: Some(3), next_sibling_id: Some(7) },
            BlockLink { id: 7, parent_id: Some(3), next_sibling_id: Some(5) },
            BlockLink { id: 5, parent_id: Some(3), next_sibling_id: None },
        ]
    );
    let rebuilt = rustseq::build(&links).unwrap();
    assert_eq!(&rebuilt, tree.root());
}

#[test]
fn diff_after_a_move_names_the_touched_blocks_only() {
    let mut tree = sample();
    let before = tree.serialize();
    tree.move_block(5, 1, 0).unwrap();
    assert_eq!(
        tree.diff(Some(&before)),
        vec![
            BlockLink { id: 5, parent_id: Some(1), next_sibling_id: Some(2) },
            BlockLink { id: 4, parent_id: Some(3), next_sibling_id: None },
        ]
    );
}
