//! Flat rows as the block store holds them.

use vstd::prelude::*;

verus! {

/// Id of the page root: a node that is never stored and that stands above a
/// page's top-level blocks.
pub const ROOT_ID: i64 = 0;

/// One stored block.
#[derive(Clone, Debug, PartialEq, Eq)]
pub struct BlockRow {
    pub id: Option<i64>,
    pub content: String,
    pub parent_id: Option<i64>,
    pub sibling_id: Option<i64>,
    pub page_id: Option<i64>,
}

/// One stored page.
#[derive(Clone, Debug, PartialEq, Eq)]
pub struct PageRow {
    pub id: Option<i64>,
    pub title: String,
    pub root_block_id: Option<i64>,
}

/// The structural part of a stored block: where it hangs and what follows it.
#[derive(Clone, Copy, Debug, PartialEq, Eq, Structural)]
pub struct BlockLink {
    pub id: i64,
    pub parent_id: Option<i64>,
    pub next_sibling_id: Option<i64>,
}

impl BlockRow {
    /// A row that has not been stored yet: it has no id.
    pub fn new(
        content: &str,
        parent_id: Option<i64>,
        sibling_id: Option<i64>,
        page_id: Option<i64>,
    ) -> (row: Self)
        ensures
            row.id is None,
            row.content@ == content@,
            row.parent_id == parent_id,
            row.sibling_id == sibling_id,
            row.page_id == page_id,
    {
        BlockRow {
            id: None,
            content: content.to_owned(),
            parent_id: parent_id,
            sibling_id: sibling_id,
            page_id: page_id,
        }
    }

    /// The link that a stored row stands for.
    pub open spec fn spec_link(&self) -> BlockLink
        recommends
            self.id is Some,
    {
        BlockLink {
            id: self.id->Some_0,
            parent_id: self.parent_id,
            next_sibling_id: self.sibling_id,
        }
    }

    /// The structural part of a stored row.
    pub fn link(&self) -> (l: BlockLink)
        requires
            self.id is Some,
        ensures
            l == self.spec_link(),
    {
        BlockLink {
            id: self.id.unwrap(),
            parent_id: self.parent_id,
            next_sibling_id: self.sibling_id,
        }
    }
}

impl BlockLink {
    /// The id of the node that this block hangs under: its parent, or the
    /// page root where it names none.
    pub open spec fn spec_key(&self) -> i64 {
        match self.parent_id {
            Some(p) => p,
            None => ROOT_ID,
        }
    }

    /// The id of the node that this block hangs under.
    pub fn key(&self) -> (k: i64)
        ensures
            k == self.spec_key(),
    {
        match self.parent_id {
            Some(p) => p,
            None => ROOT_ID,
        }
    }
}

/// The links of a sequence of stored rows.
pub open spec fn links_of(rows: Seq<BlockRow>) -> Seq<BlockLink> {
    Seq::new(rows.len(), |k: int| rows[k].spec_link())
}

/// Every row has been stored: it has an id.
pub open spec fn all_stored(rows: Seq<BlockRow>) -> bool {
    forall|k: int| 0 <= k < rows.len() ==> (#[trigger] rows[k]).id is Some
}

/// Whether every row has an id.
pub fn is_all_stored(rows: &Vec<BlockRow>) -> (ok: bool)
    ensures
        ok == all_stored(rows@),
{
    let mut i: usize = 0;
    while i < rows.len()
        invariant
            i <= rows@.len(),
            forall|k: int| 0 <= k < i ==> (#[trigger] rows@[k]).id is Some,
        decreases rows@.len() - i,
    {
        if rows[i].id.is_none() {
            return false;
        }
        i = i + 1;
    }
    true
}

/// The links of stored rows, in the order of the rows.
pub fn collect_links(rows: &Vec<BlockRow>) -> (links: Vec<BlockLink>)
    requires
        all_stored(rows@),
    ensures
        links@ == links_of(rows@),
{
    let mut links: Vec<BlockLink> = Vec::new();
    let mut i: usize = 0;
    while i < rows.len()
        invariant
            i <= rows@.len(),
            all_stored(rows@),
            links@.len() == i,
            forall|k: int| 0 <= k < i ==> #[trigger] links@[k] == rows@[k].spec_link(),
        decreases rows@.len() - i,
    {
        links.push(rows[i].link());
        i = i + 1;
    }
    proof {
        assert(links@ =~= links_of(rows@));
    }
    links
}

} // verus!
