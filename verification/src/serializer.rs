//! From an outline tree back to flat links.

use vstd::prelude::*;
use vstd::std_specs::hash::*;
use crate::chains::{index_links, indexes};
use crate::links::{distinct_ids, has_id, lemma_position, position};
use crate::node::{lemma_view_children, views, Outline, OutlineNode};
use crate::records::{BlockLink, ROOT_ID};

verus! {

broadcast use vstd::std_specs::hash::group_hash_axioms;

/// How a link names the node with this id as its parent: the page root is
/// named by leaving the parent out.
pub open spec fn parent_field(id: i64) -> Option<i64> {
    if id == ROOT_ID {
        None
    } else {
        Some(id)
    }
}

/// The links of a row of sibling trees under `parent`, in depth-first
/// preorder. Each tree names the next one as its next sibling; the last one
/// names `after`.
pub open spec fn forest_links(s: Seq<Outline>, parent: i64, after: Option<i64>) -> Seq<BlockLink>
    decreases s,
{
    if s.len() == 0 {
        Seq::empty()
    } else {
        forest_links(s.drop_last(), parent, Some(s.last().id)) + s.last().links_under(
            parent,
            after,
        )
    }
}

impl Outline {
    /// The link of this node, hanging under `parent` and followed by `next`,
    /// and after it the links of everything below the node.
    pub open spec fn links_under(self, parent: i64, next: Option<i64>) -> Seq<BlockLink>
        decreases self,
    {
        seq![BlockLink { id: self.id, parent_id: parent_field(parent), next_sibling_id: next }]
            + forest_links(self.children, self.id, None)
    }

    /// The links of all nodes below this one, in depth-first preorder. For
    /// each parent, every child names the parent, and names the child to
    /// its right as its next sibling, the last child none.
    pub open spec fn links(self) -> Seq<BlockLink> {
        forest_links(self.children, self.id, None)
    }
}

/// The links that are not in a prior snapshot, in their order.
pub open spec fn changed_links(links: Seq<BlockLink>, previous: Seq<BlockLink>) -> Seq<BlockLink>
    decreases links.len(),
{
    if links.len() == 0 {
        Seq::empty()
    } else if previous.contains(links.last()) {
        changed_links(links.drop_last(), previous)
    } else {
        changed_links(links.drop_last(), previous).push(links.last())
    }
}

/// The field that names a parent.
fn parent_field_of(id: i64) -> (field: Option<i64>)
    ensures
        field == parent_field(id),
{
    if id == ROOT_ID {
        None
    } else {
        Some(id)
    }
}

/// Appends the links of a node and of everything below it.
fn emit_node(node: &OutlineNode, parent: i64, next: Option<i64>, out: &mut Vec<BlockLink>)
    ensures
        final(out)@ == old(out)@ + node@.links_under(parent, next),
    decreases node, 1int,
{
    let ghost start = out@;
    out.push(BlockLink { id: node.id, parent_id: parent_field_of(parent), next_sibling_id: next });
    emit_forest(&node.children, node.id, out);
    proof {
        lemma_view_children(*node);
        assert(out@ =~= start + node@.links_under(parent, next));
    }
}

/// Appends the links of a row of sibling nodes under `parent`.
fn emit_forest(children: &Vec<OutlineNode>, parent: i64, out: &mut Vec<BlockLink>)
    ensures
        final(out)@ == old(out)@ + forest_links(views(children@), parent, None),
    decreases children, 0int,
{
    let ghost start = out@;
    let n = children.len();
    let mut i: usize = 0;
    proof {
        assert(views(children@).take(0) =~= Seq::<Outline>::empty());
        assert(out@ =~= start + Seq::<BlockLink>::empty());
    }
    while i < n
        invariant
            i <= n,
            n == children@.len(),
            out@ == start + forest_links(
                views(children@).take(i as int),
                parent,
                if i < n {
                    Some(children@[i as int].id)
                } else {
                    None
                },
            ),
        decreases n - i,
    {
        let next = if i + 1 < n {
            Some(children[i + 1].id)
        } else {
            None
        };
        emit_node(&children[i], parent, next, out);
        proof {
            let all = views(children@);
            let grown = all.take(i + 1);
            assert(grown.drop_last() =~= all.take(i as int));
            assert(grown.last() == children@[i as int]@);
            assert(grown.last().id == children@[i as int].id) by {
                lemma_view_children(children@[i as int]);
            }
            assert(out@ =~= start + forest_links(grown, parent, next));
        }
        i = i + 1;
    }
    proof {
        assert(views(children@).take(n as int) =~= views(children@));
    }
}

impl OutlineNode {
    /// The links of all nodes below this one: what has to be stored so that
    /// the tree can be rebuilt.
    pub fn serialize(&self) -> (out: Vec<BlockLink>)
        ensures
            out@ == self@.links(),
    {
        let mut out: Vec<BlockLink> = Vec::new();
        emit_forest(&self.children, self.id, &mut out);
        proof {
            lemma_view_children(*self);
            assert(out@ =~= self@.links());
        }
        out
    }

    /// The links that have to be written: all of them where there is no prior
    /// snapshot, else those that the snapshot does not hold as they are.
    pub fn diff(&self, previous: Option<&Vec<BlockLink>>) -> (out: Vec<BlockLink>)
        requires
            previous matches Some(p) ==> distinct_ids(p@),
        ensures
            out@ == match previous {
                Some(p) => changed_links(self@.links(), p@),
                None => self@.links(),
            },
    {
        let links = self.serialize();
        match previous {
            None => links,
            Some(prior) => {
                let index = index_links(prior);
                let mut i: usize = 0;
                let mut out: Vec<BlockLink> = Vec::new();
                proof {
                    assert(links@.take(0) =~= Seq::<BlockLink>::empty());
                }
                while i < links.len()
                    invariant
                        i <= links@.len(),
                        distinct_ids(prior@),
                        indexes(index@, prior@),
                        out@ == changed_links(links@.take(i as int), prior@),
                    decreases links@.len() - i,
                {
                    let link = links[i];
                    let known = match index.get(&link.id) {
                        Some(at) => {
                            let stored = prior[*at];
                            stored.parent_id == link.parent_id && stored.next_sibling_id
                                == link.next_sibling_id
                        },
                        None => false,
                    };
                    proof {
                        let grown = links@.take(i + 1);
                        assert(grown.drop_last() =~= links@.take(i as int));
                        assert(grown.last() == link);
                        if known {
                            assert(has_id(prior@, link.id));
                            assert(prior@[position(prior@, link.id)] == link);
                        } else if prior@.contains(link) {
                            let j = choose|j: int| 0 <= j < prior@.len() && prior@[j] == link;
                            lemma_position(prior@, j);
                        }
                    }
                    if !known {
                        out.push(link);
                    }
                    i = i + 1;
                }
                proof {
                    assert(links@.take(i as int) =~= links@);
                }
                out
            },
        }
    }
}

} // verus!
