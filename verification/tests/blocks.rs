use rustseq::{Block, BlockLink, BlockRow, ROOT_ID};

#[test]
fn a_new_row_has_no_id() {
    let row = BlockRow::new("Hello World", Some(1), Some(2), Some(3));
    assert_eq!(row.id, None);
    assert_eq!(row.content, "Hello World");
    assert_eq!(row.parent_id, Some(1));
    assert_eq!(row.sibling_id, Some(2));
    assert_eq!(row.page_id, Some(3));
}

#[test]
fn a_new_block_is_detached() {
    let block = Block::new(7, "text");
    let row = block.as_block_row();
    assert_eq!(
        row,
        BlockRow { id: Some(7), content: String::from("text"), parent_id: None, sibling_id: None, page_id: None }
    );
}

#[test]
fn a_block_row_names_parent_and_sibling_by_id() {
    let parent = Block::new(1, "parent");
    let sibling = Block::new(3, "sibling");
    let mut block = Block::new(2, "child");
    block.set_parent(&parent);
    block.set_sibling(&sibling);
    let row = block.as_block_row();
    assert_eq!(row.id, Some(2));
    assert_eq!(row.content, "child");
    assert_eq!(row.parent_id, Some(1));
    assert_eq!(row.sibling_id, Some(3));
    assert_eq!(row.page_id, None);
}

#[test]
fn the_link_of_a_row_is_its_structural_part() {
    let row = BlockRow { id: Some(4), content: String::from("x"), parent_id: Some(3), sibling_id: None, page_id: Some(1) };
    assert_eq!(row.link(), BlockLink { id: 4, parent_id: Some(3), next_sibling_id: None });
}

#[test]
fn the_key_of_a_link_is_its_parent_or_the_root() {
    assert_eq!(BlockLink { id: 4, parent_id: Some(3), next_sibling_id: None }.key(), 3);
    assert_eq!(BlockLink { id: 4, parent_id: None, next_sibling_id: None }.key(), ROOT_ID);
    assert_eq!(ROOT_ID, 0);
}
