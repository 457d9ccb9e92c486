//! A page: its stored row, its stored blocks and the tree over them.

use vstd::prelude::*;
use crate::builder::{describes, reports};
use crate::errors::{MutationError, StructuralIntegrityError};
use crate::links::{is_well_formed, valid, well_formed};
use crate::records::{all_stored, collect_links, links_of, BlockRow, PageRow, ROOT_ID};
use crate::tree::{
    insert_outcome, leaf, move_outcome, remove_outcome, rename_outcome, OutlineTree, RemovalPolicy,
};

verus! {

/// The id of the first top-level block of a tree, if it has any block.
pub open spec fn first_block_of(tree: OutlineTree) -> Option<i64> {
    if tree.outline().children.len() == 0 {
        None
    } else {
        Some(tree.outline().children[0].id)
    }
}

/// A page with its blocks and the outline tree over them. The page owns the
/// page root; callers see blocks only.
#[derive(Debug)]
pub struct Page {
    page_data: PageRow,
    block_data: Vec<BlockRow>,
    block_tree: OutlineTree,
}

impl Page {
    /// The id of the stored page.
    pub closed spec fn id(&self) -> Option<i64> {
        self.page_data.id
    }

    /// The title of the page.
    pub closed spec fn title(&self) -> Seq<char> {
        self.page_data.title@
    }

    /// The id that the page names as its first top-level block.
    pub closed spec fn root_block(&self) -> Option<i64> {
        self.page_data.root_block_id
    }

    /// The stored blocks of the page.
    pub closed spec fn rows(&self) -> Seq<BlockRow> {
        self.block_data@
    }

    /// The outline tree of the page.
    pub closed spec fn tree(&self) -> OutlineTree {
        self.block_tree
    }

    /// The tree of the page is well formed, and every row has an id.
    pub open spec fn wf(&self) -> bool {
        &&& self.tree().wf()
        &&& all_stored(self.rows())
    }

    /// The page row and the stored blocks are as before.
    pub open spec fn same_rows(&self, other: &Page) -> bool {
        &&& self.id() == other.id()
        &&& self.title() == other.title()
        &&& self.rows() == other.rows()
    }

    /// A page over the given rows. Its tree is empty until `build_tree` has
    /// run.
    pub fn new(page_row: PageRow, block_data: Vec<BlockRow>) -> (page: Self)
        requires
            all_stored(block_data@),
        ensures
            page.wf(),
            page.id() == page_row.id,
            page.title() == page_row.title@,
            page.root_block() == page_row.root_block_id,
            page.rows() == block_data@,
            page.tree().outline() == leaf(ROOT_ID),
    {
        Page { page_data: page_row, block_data: block_data, block_tree: OutlineTree::new() }
    }

    /// Rebuilds the tree from the page's rows. On success the page holds
    /// the tree that the rows describe, with the content of every row, and
    /// names the tree's first top-level block as its root block; the result
    /// tells whether the root block that the page named before agreed with
    /// the tree. On failure the page is unchanged.
    pub fn build_tree(&mut self) -> (res: Result<bool, StructuralIntegrityError>)
        requires
            old(self).wf(),
            well_formed(links_of(old(self).rows())),
        ensures
            final(self).wf(),
            final(self).same_rows(old(self)),
            res is Ok <==> valid(links_of(old(self).rows())),
            match res {
                Ok(agreed) => {
                    &&& describes(final(self).tree().outline(), links_of(old(self).rows()))
                    &&& forall|k: int|
                        0 <= k < old(self).rows().len() ==> final(self).tree().contents()[
                            #[trigger] links_of(old(self).rows())[k].id
                        ] == old(self).rows()[k].content@
                    &&& final(self).root_block() == first_block_of(final(self).tree())
                    &&& agreed == (old(self).root_block() is None || old(self).root_block()
                        == first_block_of(final(self).tree()))
                },
                Err(e) => {
                    &&& reports(links_of(old(self).rows()), e)
                    &&& final(self).tree() == old(self).tree()
                    &&& final(self).root_block() == old(self).root_block()
                },
            },
    {
        match OutlineTree::from_rows(&self.block_data) {
            Ok(tree) => {
                self.block_tree = tree;
                let agreed = self.root_matches();
                self.page_data.root_block_id = self.block_tree.first_block();
                Ok(agreed)
            },
            Err(e) => Err(e),
        }
    }

    /// Whether the links of the page's rows are well formed, as `build_tree`
    /// asks.
    pub fn rows_well_formed(&self) -> (ok: bool)
        requires
            self.wf(),
        ensures
            ok == well_formed(links_of(self.rows())),
    {
        let links = collect_links(&self.block_data);
        is_well_formed(&links)
    }

    /// The outline tree of the page.
    pub fn outline_tree(&self) -> (tree: &OutlineTree)
        ensures
            *tree == self.tree(),
    {
        &self.block_tree
    }

    /// The ids of the tree in depth-first preorder, the page root first.
    pub fn preorder(&self) -> (ids: Vec<i64>)
        ensures
            ids@ == self.tree().outline().ids(),
    {
        self.block_tree.preorder()
    }

    /// How many stored blocks the page was made with.
    pub fn block_count(&self) -> (n: usize)
        ensures
            n == self.rows().len(),
    {
        self.block_data.len()
    }

    /// The id that the page names as its first top-level block.
    pub fn root_block_id(&self) -> (id: Option<i64>)
        ensures
            id == self.root_block(),
    {
        self.page_data.root_block_id
    }

    /// Whether the root block that the page names agrees with the tree: the
    /// page names none, or names the tree's first top-level block.
    pub fn root_matches(&self) -> (ok: bool)
        ensures
            ok == (self.root_block() is None || self.root_block() == first_block_of(self.tree())),
    {
        match self.page_data.root_block_id {
            None => true,
            Some(named) => match self.block_tree.first_block() {
                Some(first) => named == first,
                None => false,
            },
        }
    }

    /// Makes the page name the tree's first top-level block as its root
    /// block, or none where the tree has no block.
    pub fn reconcile_root(&mut self)
        ensures
            final(self).root_block() == first_block_of(old(self).tree()),
            final(self).tree() == old(self).tree(),
            final(self).same_rows(old(self)),
    {
        self.page_data.root_block_id = self.block_tree.first_block();
    }

    /// Adds a block to the tree, as `OutlineTree::insert_child` does, and
    /// names the tree's first top-level block anew where that went through.
    pub fn insert_child(&mut self, parent: i64, index: usize, content: &str) -> (res: Result<
        i64,
        MutationError,
    >)
        requires
            old(self).wf(),
            old(self).tree().last_id() < i64::MAX,
        ensures
            final(self).wf(),
            final(self).same_rows(old(self)),
            insert_outcome(
                old(self).tree(),
                final(self).tree(),
                parent,
                index as int,
                content@,
                res,
            ),
            final(self).root_block() == if res is Ok {
                first_block_of(final(self).tree())
            } else {
                old(self).root_block()
            },
    {
        let res = self.block_tree.insert_child(parent, index, content);
        if res.is_ok() {
            self.page_data.root_block_id = self.block_tree.first_block();
        }
        res
    }

    /// Moves a block, as `OutlineTree::move_block` does, and names the
    /// tree's first top-level block anew where that went through.
    pub fn move_block(&mut self, block: i64, new_parent: i64, new_index: usize) -> (res: Result<
        (),
        MutationError,
    >)
        requires
            old(self).wf(),
        ensures
            final(self).wf(),
            final(self).same_rows(old(self)),
            move_outcome(
                old(self).tree(),
                final(self).tree(),
                block,
                new_parent,
                new_index as int,
                res,
            ),
            final(self).root_block() == if res is Ok {
                first_block_of(final(self).tree())
            } else {
                old(self).root_block()
            },
    {
        let res = self.block_tree.move_block(block, new_parent, new_index);
        if res.is_ok() {
            self.page_data.root_block_id = self.block_tree.first_block();
        }
        res
    }

    /// Removes a block, as `OutlineTree::remove_block` does, and names the
    /// tree's first top-level block anew where that went through.
    pub fn remove_block(&mut self, block: i64, policy: RemovalPolicy) -> (res: Result<
        (),
        MutationError,
    >)
        requires
            old(self).wf(),
        ensures
            final(self).wf(),
            final(self).same_rows(old(self)),
            remove_outcome(old(self).tree(), final(self).tree(), block, policy, res),
            final(self).root_block() == if res is Ok {
                first_block_of(final(self).tree())
            } else {
                old(self).root_block()
            },
    {
        let res = self.block_tree.remove_block(block, policy);
        if res.is_ok() {
            self.page_data.root_block_id = self.block_tree.first_block();
        }
        res
    }

    /// Replaces the content of a block, as `OutlineTree::rename_content`
    /// does.
    pub fn rename_content(&mut self, block: i64, content: &str) -> (res: Result<(), MutationError>)
        requires
            old(self).wf(),
        ensures
            final(self).wf(),
            final(self).same_rows(old(self)),
            final(self).root_block() == old(self).root_block(),
            rename_outcome(old(self).tree(), final(self).tree(), block, content@, res),
    {
        self.block_tree.rename_content(block, content)
    }
}

} // verus!
