//! A block that refers to its neighbours directly.

use vstd::prelude::*;
use crate::records::BlockRow;

verus! {

/// A block together with borrowed references to its parent and to the
/// sibling that follows it.
#[derive(Debug)]
pub struct Block<'a, 'b> {
    id: i64,
    content: String,
    parent: Option<&'a Block<'a, 'b>>,
    next_sibling: Option<&'b Block<'a, 'b>>,
}

impl<'a, 'b> Block<'a, 'b> {
    pub closed spec fn id(&self) -> i64 {
        self.id
    }

    pub closed spec fn content(&self) -> Seq<char> {
        self.content@
    }

    /// The id of the parent, if one is set.
    pub closed spec fn parent_id(&self) -> Option<i64> {
        match self.parent {
            Some(p) => Some(p.id),
            None => None,
        }
    }

    /// The id of the next sibling, if one is set.
    pub closed spec fn sibling_id(&self) -> Option<i64> {
        match self.next_sibling {
            Some(s) => Some(s.id),
            None => None,
        }
    }

    /// A detached block: no parent, no next sibling.
    pub fn new(id: i64, content: &str) -> (block: Self)
        ensures
            block.id() == id,
            block.content() == content@,
            block.parent_id() is None,
            block.sibling_id() is None,
    {
        Block { id: id, content: content.to_owned(), parent: None, next_sibling: None }
    }

    /// Hangs the block under `parent`.
    pub fn set_parent(&mut self, parent: &'a Block<'a, 'b>)
        ensures
            final(self).parent_id() == Some(parent.id()),
            final(self).id() == old(self).id(),
            final(self).content() == old(self).content(),
            final(self).sibling_id() == old(self).sibling_id(),
    {
        self.parent = Some(parent);
    }

    /// Makes `sibling` the block that follows this one.
    pub fn set_sibling(&mut self, sibling: &'b Block<'a, 'b>)
        ensures
            final(self).sibling_id() == Some(sibling.id()),
            final(self).id() == old(self).id(),
            final(self).content() == old(self).content(),
            final(self).parent_id() == old(self).parent_id(),
    {
        self.next_sibling = Some(sibling);
    }

    /// The row that stores this block: its id and content, and the ids of
    /// its parent and next sibling. The row belongs to no page yet.
    pub fn as_block_row(&self) -> (row: BlockRow)
        ensures
            row.id == Some(self.id()),
            row.content@ == self.content(),
            row.parent_id == self.parent_id(),
            row.sibling_id == self.sibling_id(),
            row.page_id is None,
    {
        let parent_id = match self.parent {
            Some(parent_block) => Some(parent_block.id),
            None => None,
        };
        let sibling_id = match self.next_sibling {
            Some(sibling_block) => Some(sibling_block.id),
            None => None,
        };
        BlockRow {
            id: Some(self.id),
            content: self.content.clone(),
            parent_id: parent_id,
            sibling_id: sibling_id,
            page_id: None,
        }
    }
}

} // verus!
