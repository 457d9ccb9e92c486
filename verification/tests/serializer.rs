use rustseq::{build, BlockLink, OutlineNode};

fn link(id: i64, parent: Option<i64>, next: Option<i64>) -> BlockLink {
    BlockLink { id, parent_id: parent, next_sibling_id: next }
}

fn node(id: i64, children: Vec<OutlineNode>) -> OutlineNode {
    OutlineNode { id, children }
}

fn sample() -> OutlineNode {
    node(
        0,
        vec![
            node(5, vec![]),
            node(1, vec![node(2, vec![]), node(3, vec![node(4, vec![])])]),
        ],
    )
}

#[test]
fn serialize_names_parent_and_next_sibling_of_every_block() {
    let links = sample().serialize();
    assert_eq!(
        links,
        vec![
            link(5, None, Some(1)),
            link(1, None, None),
            link(2, Some(1), Some(3)),
            link(3, Some(1), None),
            link(4, Some(3), None),
        ]
    );
}

#[test]
fn serialize_of_the_bare_root_is_empty() {
    assert_eq!(node(0, vec![]).serialize(), Vec::<BlockLink>::new());
}

#[test]
fn rebuilding_from_the_links_of_a_tree_gives_the_tree() {
    let tree = sample();
    let rebuilt = build(&tree.serialize()).unwrap();
    assert_eq!(rebuilt, tree);
}

#[test]
fn rebuilding_keeps_the_order_of_many_children() {
    let tree = node(
        0,
        vec![
            node(9, vec![node(8, vec![]), node(7, vec![]), node(6, vec![])]),
            node(3, vec![node(4, vec![node(5, vec![node(1, vec![]), node(2, vec![])])])]),
            node(10, vec![]),
        ],
    );
    let rebuilt = build(&tree.serialize()).unwrap();
    assert_eq!(rebuilt, tree);
}

#[test]
fn diff_without_a_snapshot_is_every_link() {
    let tree = sample();
    assert_eq!(tree.diff(None), tree.serialize());
}

#[test]
fn diff_against_the_same_snapshot_is_empty() {
    let tree = sample();
    let snapshot = tree.serialize();
    assert_eq!(tree.diff(Some(&snapshot)), Vec::<BlockLink>::new());
}

#[test]
fn diff_holds_the_blocks_whose_links_changed() {
    let snapshot = sample().serialize();
    let edited = node(
        0,
        vec![
            node(5, vec![]),
            node(1, vec![node(3, vec![node(4, vec![])]), node(2, vec![])]),
        ],
    );
    assert_eq!(edited.diff(Some(&snapshot)), vec![link(3, Some(1), Some(2)), link(2, Some(1), None)]);
}

#[test]
fn diff_holds_the_blocks_that_the_snapshot_lacks() {
    let snapshot = vec![link(1, None, None)];
    let edited = node(0, vec![node(1, vec![node(2, vec![])])]);
    assert_eq!(edited.diff(Some(&snapshot)), vec![link(2, Some(1), None)]);
}

fn next_random(state: &mut u64) -> u64 {
    *state = state.wrapping_mul(6364136223846793005).wrapping_add(1442695040888963407);
    *state >> 33
}

fn grow(id: &mut i64, depth: u32, state: &mut u64) -> OutlineNode {
    let own = *id;
    *id += 1;
    let mut children = Vec::new();
    if depth < 5 {
        let count = next_random(state) % 4;
        for _ in 0..count {
            children.push(grow(id, depth + 1, state));
        }
    }
    node(own, children)
}

#[test]
fn rebuilding_from_shuffled_links_gives_the_tree() {
    let mut state: u64 = 42;
    for _ in 0..50 {
        let mut id: i64 = 0;
        let tree = grow(&mut id, 0, &mut state);
        let mut links = tree.serialize();
        let n = links.len();
        for i in 0..n {
            let j = i + (next_random(&mut state) as usize) % (n - i);
            links.swap(i, j);
        }
        let rebuilt = build(&links).unwrap();
        assert_eq!(rebuilt, tree);
        let mut listed = tree.preorder();
        assert_eq!(listed.len(), n + 1);
        assert_eq!(listed.remove(0), 0);
        let ids: Vec<i64> = tree.serialize().iter().map(|l| l.id).collect();
        assert_eq!(listed, ids);
    }
}
