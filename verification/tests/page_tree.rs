use rustseq::{
    is_all_stored, BlockRow, MutationError, Page, PageRow, RemovalPolicy, StructuralIntegrityError,
};

fn setup_blocks() -> Vec<BlockRow> {
    vec![
        BlockRow { id: Some(1), content: String::from("I'm block 1"), parent_id: None, sibling_id: None, page_id: None },
        BlockRow { id: Some(2), content: String::from("I'm block 2"), parent_id: Some(1), sibling_id: Some(3), page_id: None },
        BlockRow { id: Some(3), content: String::from("I'm block 3"), parent_id: Some(1), sibling_id: None, page_id: None },
        BlockRow { id: Some(4), content: String::from("I'm block 4"), parent_id: Some(3), sibling_id: None, page_id: None },
        BlockRow { id: Some(5), content: String::from("I'm block 5"), parent_id: None, sibling_id: Some(1), page_id: None },
    ]
}

fn setup_page() -> Page {
    Page::new(PageRow { id: None, title: String::from(""), root_block_id: None }, setup_blocks())
}

fn iterate_tree(page: &Page) -> Vec<i64> {
    page.preorder()
}

#[test]
fn all_nodes_in_tree() {
    let mut page = setup_page();
    page.build_tree().unwrap();

    // check the length of the iterated tree is equal to the number of blocks plus one for the root node
    let iterated_tree = iterate_tree(&page);
    assert_eq!(page.block_count() + 1, iterated_tree.len())
}

#[test]
fn tree_siblings_sorted() {
    let mut page = setup_page();
    page.build_tree().unwrap();

    let iterated_tree = iterate_tree(&page);
    assert_eq!(vec![0, 5, 1, 2, 3, 4], iterated_tree);
}

#[test]
fn a_new_page_has_the_bare_root() {
    let page = setup_page();
    assert_eq!(page.preorder(), vec![0]);
    assert_eq!(page.block_count(), 5);
    assert!(page.rows_well_formed());
}

#[test]
fn a_failed_build_leaves_the_page_as_it_was() {
    let mut rows = setup_blocks();
    rows[2].sibling_id = Some(2);
    let mut page = Page::new(PageRow { id: Some(1), title: String::from("t"), root_block_id: Some(9) }, rows);
    assert_eq!(page.build_tree(), Err(StructuralIntegrityError::CycleDetected(1)));
    assert_eq!(page.preorder(), vec![0]);
    assert_eq!(page.root_block_id(), Some(9));
}

#[test]
fn build_keeps_the_contents_of_the_rows() {
    let mut page = setup_page();
    page.build_tree().unwrap();
    assert_eq!(page.outline_tree().content(4), Some(&String::from("I'm block 4")));
}

#[test]
fn a_root_block_that_disagrees_does_not_stop_the_build() {
    let mut page = Page::new(PageRow { id: Some(1), title: String::from("t"), root_block_id: Some(1) }, setup_blocks());
    assert!(!page.root_matches());
    assert_eq!(page.build_tree(), Ok(false));
    assert!(page.root_matches());
    assert_eq!(page.root_block_id(), Some(5));
}

#[test]
fn a_page_that_names_no_root_block_matches() {
    let mut page = setup_page();
    assert_eq!(page.build_tree(), Ok(true));
    assert!(page.root_matches());
    assert_eq!(page.root_block_id(), Some(5));
}

#[test]
fn a_root_block_that_agrees_is_told() {
    let mut page = Page::new(PageRow { id: Some(1), title: String::from("t"), root_block_id: Some(5) }, setup_blocks());
    assert_eq!(page.build_tree(), Ok(true));
    assert_eq!(page.root_block_id(), Some(5));
}

#[test]
fn reconcile_root_names_the_first_block_of_the_tree_at_hand() {
    let mut page = Page::new(PageRow { id: Some(1), title: String::from("t"), root_block_id: Some(5) }, setup_blocks());
    assert!(!page.root_matches());
    page.reconcile_root();
    assert_eq!(page.root_block_id(), None);
    assert!(page.root_matches());
}

#[test]
fn reconcile_root_of_a_page_without_blocks_names_none() {
    let mut page = Page::new(PageRow { id: Some(1), title: String::from("t"), root_block_id: Some(3) }, Vec::new());
    assert_eq!(page.build_tree(), Ok(false));
    assert_eq!(page.root_block_id(), None);
    page.reconcile_root();
    assert_eq!(page.root_block_id(), None);
    assert!(page.root_matches());
}

#[test]
fn an_edit_names_the_root_block_anew() {
    let mut page = setup_page();
    page.build_tree().unwrap();
    assert_eq!(page.insert_child(0, 0, "first"), Ok(6));
    assert_eq!(page.root_block_id(), Some(6));
    assert_eq!(page.move_block(4, 0, 0), Ok(()));
    assert_eq!(page.root_block_id(), Some(4));
    assert_eq!(page.remove_block(4, RemovalPolicy::Keep), Ok(()));
    assert_eq!(page.root_block_id(), Some(6));
    assert_eq!(page.preorder(), vec![0, 6, 5, 1, 2, 3]);
}

#[test]
fn a_refused_edit_leaves_the_root_block() {
    let mut page = Page::new(PageRow { id: Some(1), title: String::from("t"), root_block_id: Some(1) }, setup_blocks());
    page.build_tree().unwrap();
    assert_eq!(page.move_block(1, 4, 0), Err(MutationError::CycleRejected));
    assert_eq!(page.remove_block(1, RemovalPolicy::Keep), Err(MutationError::HasChildren));
    assert_eq!(page.insert_child(77, 0, "x"), Err(MutationError::UnknownBlock(77)));
    assert_eq!(page.root_block_id(), Some(5));
    assert_eq!(page.preorder(), vec![0, 5, 1, 2, 3, 4]);
}

#[test]
fn rename_through_the_page_changes_the_content() {
    let mut page = setup_page();
    page.build_tree().unwrap();
    assert_eq!(page.rename_content(2, "two"), Ok(()));
    assert_eq!(page.outline_tree().content(2), Some(&String::from("two")));
    assert_eq!(page.root_block_id(), Some(5));
}

#[test]
fn rows_without_an_id_are_told_apart() {
    let mut rows = setup_blocks();
    assert!(is_all_stored(&rows));
    rows.push(BlockRow::new("fresh", None, None, None));
    assert!(!is_all_stored(&rows));
}

#[test]
fn rows_with_a_repeated_id_are_not_well_formed() {
    let mut rows = setup_blocks();
    rows[4].id = Some(1);
    let page = Page::new(PageRow { id: None, title: String::from(""), root_block_id: None }, rows);
    assert!(!page.rows_well_formed());
}
