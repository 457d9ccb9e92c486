//! The outline tree of a page and its edits.

use std::collections::HashMap;
use vstd::prelude::*;
use vstd::std_specs::hash::*;
use crate::builder::{build, describes, reports};
use crate::edit_lemmas::{
    lemma_find_distinct, lemma_node_ids, lemma_promoted_ids, lemma_promoted_member,
    lemma_sub_contains, lemma_with_child_ids, lemma_without_find, lemma_without_ids,
    lemma_without_member, others,
};
use crate::errors::{MutationError, StructuralIntegrityError};
use crate::links::{distinct_ids, has_id, valid, well_formed};
use crate::node::{forest_ids, lemma_view_children, views, Outline, OutlineNode};
use crate::records::{all_stored, collect_links, links_of, BlockLink, BlockRow, ROOT_ID};
use crate::serializer::changed_links;

verus! {

broadcast use vstd::std_specs::hash::group_hash_axioms;

/// What becomes of the children of a block that is removed.
#[derive(Clone, Copy, Debug, PartialEq, Eq, Structural)]
pub enum RemovalPolicy {
    /// The block may only go if it has no children.
    Keep,
    /// The children take the block's place among its siblings.
    PromoteChildren,
    /// The children go with the block.
    DeleteSubtree,
}

/// A block without children.
pub open spec fn leaf(id: i64) -> Outline {
    Outline { id: id, children: Seq::empty() }
}

/// An ordered tree of blocks under the page root, with the content of each
/// block.
#[derive(Debug)]
pub struct OutlineTree {
    root: OutlineNode,
    contents: HashMap<i64, String>,
    last_id: i64,
}

impl OutlineTree {
    /// The shape of the tree, the page root on top.
    pub closed spec fn outline(&self) -> Outline {
        self.root@
    }

    /// The content of each block.
    pub closed spec fn contents(&self) -> Map<i64, Seq<char>> {
        Map::new(|id: i64| self.contents@.contains_key(id), |id: i64| self.contents@[id]@)
    }

    /// The largest id that the tree has held.
    pub closed spec fn last_id(&self) -> i64 {
        self.last_id
    }

    /// The tree hangs under the page root, holds every id once and none
    /// above `last_id`, and has a content for every block.
    pub closed spec fn wf(&self) -> bool {
        &&& self.root@.id == ROOT_ID
        &&& self.root@.distinct()
        &&& forall|id: i64| #[trigger]
            self.contents@.contains_key(id) <==> id != ROOT_ID && self.root@.contains(id)
        &&& forall|id: i64| #[trigger] self.root@.contains(id) ==> id <= self.last_id
    }

    /// What well-formedness says in terms of the public model.
    pub proof fn lemma_wf(&self)
        requires
            self.wf(),
        ensures
            self.outline().id == ROOT_ID,
            self.outline().distinct(),
            forall|id: i64| #[trigger]
                self.contents().contains_key(id) <==> id != ROOT_ID && self.outline().contains(id),
            forall|id: i64| #[trigger] self.outline().contains(id) ==> id <= self.last_id(),
            self.last_id() >= ROOT_ID,
    {
        assert(self.root@.ids()[0] == ROOT_ID);
        assert(self.root@.contains(ROOT_ID));
    }

    /// The tree of a page without blocks.
    pub fn new() -> (tree: Self)
        ensures
            tree.wf(),
            tree.outline() == leaf(ROOT_ID),
            tree.contents() == Map::<i64, Seq<char>>::empty(),
            tree.last_id() == ROOT_ID,
    {
        let root = OutlineNode { id: ROOT_ID, children: Vec::new() };
        let tree = OutlineTree { root: root, contents: HashMap::new(), last_id: ROOT_ID };
        proof {
            lemma_view_children(tree.root);
            assert(tree.root@.children =~= Seq::<Outline>::empty());
            lemma_node_ids(ROOT_ID, Seq::<Outline>::empty());
            assert(tree.contents() =~= Map::<i64, Seq<char>>::empty());
        }
        tree
    }

    /// Rebuilds the tree that stored rows describe and takes the content of
    /// each block from its row. Fails, with the fault that rebuilding
    /// reports, exactly where the links of the rows are not valid.
    pub fn from_rows(rows: &Vec<BlockRow>) -> (res: Result<OutlineTree, StructuralIntegrityError>)
        requires
            all_stored(rows@),
            well_formed(links_of(rows@)),
        ensures
            res is Ok <==> valid(links_of(rows@)),
            match res {
                Ok(tree) => {
                    &&& tree.wf()
                    &&& describes(tree.outline(), links_of(rows@))
                    &&& forall|k: int|
                        0 <= k < rows@.len() ==> tree.contents()[#[trigger] links_of(rows@)[k].id]
                            == rows@[k].content@
                },
                Err(e) => reports(links_of(rows@), e),
            },
    {
        let links = collect_links(rows);
        let root = match build(&links) {
            Ok(root) => root,
            Err(e) => {
                return Err(e);
            },
        };
        let mut contents: HashMap<i64, String> = HashMap::new();
        let mut last_id: i64 = ROOT_ID;
        let mut i: usize = 0;
        while i < rows.len()
            invariant
                i <= rows@.len(),
                all_stored(rows@),
                links@ == links_of(rows@),
                well_formed(links@),
                last_id >= ROOT_ID,
                forall|k: int| 0 <= k < i ==> (#[trigger] links@[k]).id <= last_id,
                forall|id: i64| #[trigger]
                    contents@.contains_key(id) <==> exists|k: int|
                        0 <= k < i && links@[k].id == id,
                forall|k: int|
                    0 <= k < i ==> contents@[#[trigger] links@[k].id]@ == rows@[k].content@,
            decreases rows@.len() - i,
        {
            let id = links[i].id;
            proof {
                assert forall|k: int| 0 <= k < i implies (#[trigger] links@[k]).id != id by {}
            }
            contents.insert(id, rows[i].content.clone());
            if id > last_id {
                last_id = id;
            }
            i = i + 1;
        }
        let tree = OutlineTree { root: root, contents: contents, last_id: last_id };
        proof {
            assert forall|id: i64| #[trigger] tree.root@.contains(id) implies id <= last_id by {
                if id != ROOT_ID {
                    assert(has_id(links@, id));
                }
            }
        }
        Ok(tree)
    }

    /// The top node: the page root, above the page's top-level blocks.
    pub fn root(&self) -> (root: &OutlineNode)
        ensures
            root@ == self.outline(),
    {
        &self.root
    }

    /// Whether the tree holds a block with this id. The page root is no
    /// block.
    pub fn contains(&self, id: i64) -> (held: bool)
        ensures
            held == (id != ROOT_ID && self.outline().contains(id)),
    {
        id != ROOT_ID && self.root.contains_id(id)
    }

    /// The content of a block.
    pub fn content(&self, id: i64) -> (text: Option<&String>)
        ensures
            match text {
                Some(s) => self.contents().contains_key(id) && self.contents()[id] == s@,
                None => !self.contents().contains_key(id),
            },
    {
        self.contents.get(&id)
    }

    /// The id of the first top-level block, if the page has any block.
    pub fn first_block(&self) -> (first: Option<i64>)
        ensures
            first == if self.outline().children.len() == 0 {
                None
            } else {
                Some(self.outline().children[0].id)
            },
    {
        proof {
            lemma_view_children(self.root);
        }
        if self.root.children.len() == 0 {
            None
        } else {
            proof {
                lemma_view_children(self.root.children@[0]);
            }
            Some(self.root.children[0].id)
        }
    }

    /// The ids of the tree in depth-first preorder, the page root first.
    pub fn preorder(&self) -> (ids: Vec<i64>)
        ensures
            ids@ == self.outline().ids(),
    {
        self.root.preorder()
    }

    /// The links of all blocks: what has to be stored so that the tree can
    /// be rebuilt.
    pub fn serialize(&self) -> (links: Vec<BlockLink>)
        ensures
            links@ == self.outline().links(),
    {
        self.root.serialize()
    }

    /// The links that have to be written: all of them where there is no
    /// prior snapshot, else those that the snapshot does not hold as they
    /// are.
    pub fn diff(&self, previous: Option<&Vec<BlockLink>>) -> (links: Vec<BlockLink>)
        requires
            previous matches Some(p) ==> distinct_ids(p@),
        ensures
            links@ == match previous {
                Some(p) => changed_links(self.outline().links(), p@),
                None => self.outline().links(),
            },
    {
        self.root.diff(previous)
    }

    /// Adds a new block with the given content under `parent`, at position
    /// `index` of its children or at their end where `index` is larger, and
    /// returns the id of the new block: the successor of the largest id so
    /// far. Fails where the tree has no node `parent`.
    pub fn insert_child(&mut self, parent: i64, index: usize, content: &str) -> (res: Result<
        i64,
        MutationError,
    >)
        requires
            old(self).wf(),
            old(self).last_id() < i64::MAX,
        ensures
            final(self).wf(),
            insert_outcome(*old(self), *final(self), parent, index as int, content@, res),
    {
        if !self.root.contains_id(parent) {
            return Err(MutationError::UnknownBlock(parent));
        }
        let id = self.last_id + 1;
        let node = OutlineNode { id: id, children: Vec::new() };
        proof {
            lemma_view_children(node);
            assert(node@.children =~= Seq::<Outline>::empty());
            assert(node@ == leaf(id));
            lemma_node_ids(id, Seq::<Outline>::empty());
            assert forall|x: i64| node@.contains(x) implies !self.root@.contains(x) by {}
            lemma_with_child_ids(self.root@, parent, index as int, node@);
            old(self).lemma_wf();
        }
        let rest = self.root.insert_under(parent, index, node);
        self.contents.insert(id, content.to_owned());
        self.last_id = id;
        proof {
            assert(rest is None);
            assert(self.contents() =~= old(self).contents().insert(id, content@));
            assert(self.root@.id == ROOT_ID);
            assert(self.root@.distinct());
            assert(!forest_ids(Seq::<Outline>::empty()).contains(id));
            assert forall|x: i64| node@.contains(x) <==> x == id by {
                assert(!forest_ids(Seq::<Outline>::empty()).contains(x));
            }
            assert forall|x: i64| #[trigger]
                self.contents@.contains_key(x) <==> x != ROOT_ID && self.root@.contains(x) by {}
            assert forall|x: i64| #[trigger] self.root@.contains(x) implies x <= self.last_id by {
                assert(old(self).root@.contains(x) || node@.contains(x));
                if old(self).root@.contains(x) {
                    assert(x <= old(self).last_id);
                }
            }
        }
        Ok(id)
    }

    /// Replaces the content of a block. Fails where the tree has no such
    /// block.
    pub fn rename_content(&mut self, block: i64, content: &str) -> (res: Result<(), MutationError>)
        requires
            old(self).wf(),
        ensures
            final(self).wf(),
            rename_outcome(*old(self), *final(self), block, content@, res),
    {
        if block == ROOT_ID || !self.root.contains_id(block) {
            return Err(MutationError::UnknownBlock(block));
        }
        self.contents.insert(block, content.to_owned());
        proof {
            assert(final(self).contents() =~= old(self).contents().insert(block, content@));
        }
        Ok(())
    }

    /// Removes a block. With `Keep` the block must have no children; with
    /// `PromoteChildren` its children take its place among its siblings, in
    /// their order; with `DeleteSubtree` everything below it goes too.
    /// Fails, and changes nothing, where the tree has no such block or
    /// where `Keep` meets a block with children.
    pub fn remove_block(&mut self, block: i64, policy: RemovalPolicy) -> (res: Result<
        (),
        MutationError,
    >)
        requires
            old(self).wf(),
        ensures
            final(self).wf(),
            remove_outcome(*old(self), *final(self), block, policy, res),
    {
        if block == ROOT_ID {
            return Err(MutationError::UnknownBlock(block));
        }
        let has_children = match self.root.find_node(block) {
            None => {
                return Err(MutationError::UnknownBlock(block));
            },
            Some(node) => {
                proof {
                    lemma_view_children(*node);
                }
                node.children.len() > 0
            },
        };
        proof {
            lemma_find_distinct(self.root@, block);
            lemma_without_ids(self.root@, block);
            lemma_promoted_ids(self.root@, block);
        }
        let ghost sub = self.root@.find(block)->Some_0;
        match policy {
            RemovalPolicy::Keep => {
                if has_children {
                    return Err(MutationError::HasChildren);
                }
                self.root.detach(block);
                self.contents.remove(&block);
                proof {
                    assert(sub.children =~= Seq::<Outline>::empty()) by {
                        assert(sub.child_ids().len() == 0);
                    }
                    assert(sub == leaf(block));
                    lemma_node_ids(block, Seq::<Outline>::empty());
                    assert forall|x: i64| sub.contains(x) <==> x == block by {
                        assert(!forest_ids(Seq::<Outline>::empty()).contains(x));
                    }
                    assert(self.contents() =~= old(self).contents().remove_keys(set![block]));
                    assert forall|x: i64| #[trigger]
                        self.contents@.contains_key(x) <==> x != ROOT_ID && self.root@.contains(
                            x,
                        ) by {
                        lemma_without_member(old(self).root@, block, x);
                    }
                    assert forall|x: i64| #[trigger] self.root@.contains(x) implies x
                        <= self.last_id by {
                        lemma_without_member(old(self).root@, block, x);
                    }
                }
            },
            RemovalPolicy::PromoteChildren => {
                self.root.promote(block);
                self.contents.remove(&block);
                proof {
                    assert(self.contents() =~= old(self).contents().remove_keys(set![block]));
                    assert forall|x: i64| #[trigger]
                        self.contents@.contains_key(x) <==> x != ROOT_ID && self.root@.contains(
                            x,
                        ) by {
                        lemma_promoted_member(old(self).root@, block, x);
                    }
                    assert forall|x: i64| #[trigger] self.root@.contains(x) implies x
                        <= self.last_id by {
                        lemma_promoted_member(old(self).root@, block, x);
                    }
                }
            },
            RemovalPolicy::DeleteSubtree => {
                let gone = match self.root.detach(block) {
                    Some(gone) => gone,
                    None => {
                        return Err(MutationError::UnknownBlock(block));
                    },
                };
                let ids = gone.preorder();
                forget(&mut self.contents, &ids);
                proof {
                    assert(self.contents() =~= old(self).contents().remove_keys(
                        Set::new(|x: i64| sub.contains(x)),
                    ));
                    assert forall|x: i64| #[trigger]
                        self.contents@.contains_key(x) <==> x != ROOT_ID && self.root@.contains(
                            x,
                        ) by {
                        lemma_without_member(old(self).root@, block, x);
                    }
                    assert forall|x: i64| #[trigger] self.root@.contains(x) implies x
                        <= self.last_id by {
                        lemma_without_member(old(self).root@, block, x);
                    }
                }
            },
        }
        Ok(())
    }

    /// Moves a block, with everything below it, under `new_parent` at
    /// position `new_index` of its children, counted without the block
    /// itself. Fails, and changes nothing, where the tree lacks the block
    /// or the new parent, where the new parent is the block or lies below
    /// it, or where the position lies beyond the end of the child list.
    pub fn move_block(&mut self, block: i64, new_parent: i64, new_index: usize) -> (res: Result<
        (),
        MutationError,
    >)
        requires
            old(self).wf(),
        ensures
            final(self).wf(),
            move_outcome(*old(self), *final(self), block, new_parent, new_index as int, res),
    {
        if block == ROOT_ID {
            return Err(MutationError::UnknownBlock(block));
        }
        let within = match self.root.find_node(block) {
            None => {
                return Err(MutationError::UnknownBlock(block));
            },
            Some(node) => node.contains_id(new_parent),
        };
        let room = match self.root.find_node(new_parent) {
            None => {
                return Err(MutationError::UnknownBlock(new_parent));
            },
            Some(target) => {
                let mut room: usize = 0;
                let mut c: usize = 0;
                proof {
                    assert(views(target.children@).take(0) =~= Seq::<Outline>::empty());
                }
                while c < target.children.len()
                    invariant
                        c <= target.children@.len(),
                        room <= c,
                        room == others(views(target.children@).take(c as int), block),
                    decreases target.children@.len() - c,
                {
                    proof {
                        let all = views(target.children@);
                        assert(all.take(c + 1).drop_last() =~= all.take(c as int));
                        assert(all.take(c + 1).last() == target.children@[c as int]@);
                        lemma_view_children(target.children@[c as int]);
                    }
                    if target.children[c].id != block {
                        room = room + 1;
                    }
                    c = c + 1;
                }
                proof {
                    assert(views(target.children@).take(c as int) =~= views(target.children@));
                    lemma_view_children(*target);
                }
                room
            },
        };
        if within {
            return Err(MutationError::CycleRejected);
        }
        proof {
            lemma_find_distinct(self.root@, block);
            lemma_without_ids(self.root@, block);
            lemma_without_find(self.root@, block, new_parent);
        }
        if new_index > room {
            return Err(MutationError::InvalidIndex);
        }
        let ghost sub = self.root@.find(block)->Some_0;
        let ghost rest = self.root@.without(block);
        let node = match self.root.detach(block) {
            Some(node) => node,
            None => {
                return Err(MutationError::UnknownBlock(block));
            },
        };
        proof {
            assert forall|x: i64| sub.contains(x) implies !rest.contains(x) by {
                lemma_without_member(old(self).root@, block, x);
            }
            lemma_with_child_ids(rest, new_parent, new_index as int, sub);
        }
        let back = self.root.insert_under(new_parent, new_index, node);
        proof {
            assert(back is None);
            assert forall|x: i64| #[trigger] self.root@.contains(x) <==> old(self).root@.contains(
                x,
            ) by {
                if sub.contains(x) {
                    lemma_sub_contains(old(self).root@, block, x);
                }
                assert(self.root@.contains(x) <==> rest.contains(x) || sub.contains(x));
            }
        }
        Ok(())
    }
}

/// Nothing of the tree has changed.
pub open spec fn unchanged(pre: OutlineTree, post: OutlineTree) -> bool {
    &&& post.outline() == pre.outline()
    &&& post.contents() == pre.contents()
    &&& post.last_id() == pre.last_id()
}

/// What adding a block does. It fails with `UnknownBlock(parent)` exactly
/// where the tree has no node `parent`, and then changes nothing. Else the
/// new block gets the id after the largest so far and the given content,
/// and stands as a leaf under `parent` at the clamped position.
pub open spec fn insert_outcome(
    pre: OutlineTree,
    post: OutlineTree,
    parent: i64,
    index: int,
    content: Seq<char>,
    res: Result<i64, MutationError>,
) -> bool {
    match res {
        Ok(id) => {
            &&& pre.outline().contains(parent)
            &&& id == pre.last_id() + 1
            &&& post.last_id() == id
            &&& post.outline() == pre.outline().with_child(parent, index, leaf(id))
            &&& post.contents() == pre.contents().insert(id, content)
        },
        Err(e) => {
            &&& e == MutationError::UnknownBlock(parent)
            &&& !pre.outline().contains(parent)
            &&& unchanged(pre, post)
        },
    }
}

/// What replacing a content does. It fails with `UnknownBlock(block)`
/// exactly where the tree has no such block, and then changes nothing.
/// Else only the content of the block changes.
pub open spec fn rename_outcome(
    pre: OutlineTree,
    post: OutlineTree,
    block: i64,
    content: Seq<char>,
    res: Result<(), MutationError>,
) -> bool {
    &&& post.outline() == pre.outline()
    &&& post.last_id() == pre.last_id()
    &&& match res {
        Ok(_) => {
            &&& block != ROOT_ID
            &&& pre.outline().contains(block)
            &&& post.contents() == pre.contents().insert(block, content)
        },
        Err(e) => {
            &&& e == MutationError::UnknownBlock(block)
            &&& (block == ROOT_ID || !pre.outline().contains(block))
            &&& post.contents() == pre.contents()
        },
    }
}

/// What a removal does: it goes through or fails as `removal_verdict` says;
/// where it fails nothing changes, and where it goes through the tree is
/// `removed` and the contents of the ids that left are dropped.
pub open spec fn remove_outcome(
    pre: OutlineTree,
    post: OutlineTree,
    block: i64,
    policy: RemovalPolicy,
    res: Result<(), MutationError>,
) -> bool {
    &&& res == removal_verdict(pre.outline(), block, policy)
    &&& post.last_id() == pre.last_id()
    &&& match res {
        Ok(_) => {
            &&& post.outline() == removed(pre.outline(), block, policy)
            &&& post.contents() == pre.contents().remove_keys(
                removed_ids(pre.outline(), block, policy),
            )
        },
        Err(_) => unchanged(pre, post),
    }
}

/// What a move does: it goes through or fails as `move_verdict` says; where
/// it fails nothing changes, and where it goes through the tree is `moved`
/// and the contents stay.
pub open spec fn move_outcome(
    pre: OutlineTree,
    post: OutlineTree,
    block: i64,
    new_parent: i64,
    new_index: int,
    res: Result<(), MutationError>,
) -> bool {
    &&& res == move_verdict(pre.outline(), block, new_parent, new_index)
    &&& post.last_id() == pre.last_id()
    &&& post.contents() == pre.contents()
    &&& match res {
        Ok(_) => post.outline() == moved(pre.outline(), block, new_parent, new_index),
        Err(_) => post.outline() == pre.outline(),
    }
}

/// Drops the contents of the given blocks.
fn forget(contents: &mut HashMap<i64, String>, ids: &Vec<i64>)
    ensures
        forall|x: i64| #[trigger]
            final(contents)@.contains_key(x) <==> old(contents)@.contains_key(x) && !ids@.contains(
                x,
            ),
        forall|x: i64| #[trigger]
            final(contents)@.contains_key(x) ==> final(contents)@[x] == old(contents)@[x],
{
    let mut i: usize = 0;
    while i < ids.len()
        invariant
            i <= ids@.len(),
            forall|x: i64| #[trigger]
                contents@.contains_key(x) <==> old(contents)@.contains_key(x) && !ids@.take(
                    i as int,
                ).contains(x),
            forall|x: i64| #[trigger]
                contents@.contains_key(x) ==> contents@[x] == old(contents)@[x],
        decreases ids@.len() - i,
    {
        let id = ids[i];
        contents.remove(&id);
        proof {
            let before = ids@.take(i as int);
            let after = ids@.take(i + 1);
            assert(after =~= before.push(id));
            assert forall|x: i64| after.contains(x) <==> before.contains(x) || x == id by {
                vstd::seq_lib::lemma_seq_contains_after_push(before, id, x);
            }
        }
        i = i + 1;
    }
    proof {
        assert(ids@.take(i as int) =~= ids@);
    }
}

/// Whether a removal goes through, and the error where it does not: the
/// block must be in the tree, and with `Keep` it must have no children.
pub open spec fn removal_verdict(t: Outline, block: i64, policy: RemovalPolicy) -> Result<
    (),
    MutationError,
> {
    if block == ROOT_ID || !t.contains(block) {
        Err(MutationError::UnknownBlock(block))
    } else if policy == RemovalPolicy::Keep && t.children_of(block).len() > 0 {
        Err(MutationError::HasChildren)
    } else {
        Ok(())
    }
}

/// The tree after a removal that goes through.
pub open spec fn removed(t: Outline, block: i64, policy: RemovalPolicy) -> Outline {
    match policy {
        RemovalPolicy::PromoteChildren => t.promoted(block),
        _ => t.without(block),
    }
}

/// The ids that leave the tree in a removal that goes through.
pub open spec fn removed_ids(t: Outline, block: i64, policy: RemovalPolicy) -> Set<i64> {
    match policy {
        RemovalPolicy::DeleteSubtree => Set::new(|x: i64| t.find(block)->Some_0.contains(x)),
        _ => set![block],
    }
}

/// Whether a move goes through, and the error where it does not. The
/// block is looked for first, then the new parent; then the new parent
/// must not be the block or lie below it; last, the position must not lie
/// beyond the children that the new parent has apart from the block.
pub open spec fn move_verdict(t: Outline, block: i64, new_parent: i64, new_index: int) -> Result<
    (),
    MutationError,
> {
    if block == ROOT_ID || !t.contains(block) {
        Err(MutationError::UnknownBlock(block))
    } else if !t.contains(new_parent) {
        Err(MutationError::UnknownBlock(new_parent))
    } else if t.within(new_parent, block) {
        Err(MutationError::CycleRejected)
    } else if new_index > t.without(block).children_of(new_parent).len() {
        Err(MutationError::InvalidIndex)
    } else {
        Ok(())
    }
}

/// The tree after a move that goes through.
pub open spec fn moved(t: Outline, block: i64, new_parent: i64, new_index: int) -> Outline {
    t.without(block).with_child(new_parent, new_index, t.find(block)->Some_0)
}

} // verus!
