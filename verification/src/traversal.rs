//! Depth-first listing of an outline tree, done by `tree_iterators_rs`.

use vstd::prelude::*;
use tree_iterators_rs::prelude::OwnedTreeNode;
use tree_iterators_rs::prelude::Tree;
use crate::node::{forest_ids, lemma_view_children, views, OutlineNode};

verus! {

/// `tree_iterators_rs::prelude::Tree`, the crate's own tree of values.
/// Declared so that such trees can be made and handed on; nothing is known
/// here of what is inside one but its preorder.
#[verifier::external_type_specification]
#[verifier::external_body]
#[verifier::reject_recursive_types(T)]
pub struct ExTree<T>(Tree<T>);

/// The values of a `tree_iterators_rs` tree in the order in which its
/// depth-first preorder iterator yields them.
pub uninterp spec fn tree_preorder(t: Tree<i64>) -> Seq<i64>;

/// The preorder of a row of trees, tree after tree.
pub open spec fn forest_preorder(s: Seq<Tree<i64>>) -> Seq<i64>
    decreases s.len(),
{
    if s.len() == 0 {
        Seq::empty()
    } else {
        forest_preorder(s.drop_last()) + tree_preorder(s.last())
    }
}

/// Builds a `tree_iterators_rs::prelude::Tree` from a value and its child
/// trees. Trusted: the preorder of the new tree is the value followed by the
/// preorders of the children from left to right, which is how the crate's
/// iterator walks a node.
#[verifier::external_body]
fn tree_node(value: i64, children: Vec<Tree<i64>>) -> (t: Tree<i64>)
    ensures
        tree_preorder(t) == seq![value] + forest_preorder(children@),
{
    Tree { value, children }
}

/// Calls `OwnedTreeNode::dfs_preorder` of `tree_iterators_rs` and collects
/// what it yields. Trusted: the result is the tree's preorder.
#[verifier::external_body]
fn tree_values(t: Tree<i64>) -> (out: Vec<i64>)
    ensures
        out@ == tree_preorder(t),
{
    t.dfs_preorder().collect()
}

impl OutlineNode {
    /// The same tree as a `tree_iterators_rs` tree of ids.
    fn to_tree(&self) -> (t: Tree<i64>)
        ensures
            tree_preorder(t) == self@.ids(),
        decreases self,
    {
        let mut kids: Vec<Tree<i64>> = Vec::new();
        let mut i: usize = 0;
        while i < self.children.len()
            invariant
                i <= self.children.len(),
                kids@.len() == i,
                forest_preorder(kids@) == forest_ids(views(self.children@.take(i as int))),
            decreases self.children.len() - i,
        {
            let kid = self.children[i].to_tree();
            proof {
                let before = self.children@.take(i as int);
                let after = self.children@.take(i + 1);
                assert(views(after).drop_last() =~= views(before));
                assert(views(after).last() == self.children@[i as int]@);
                assert(kids@.push(kid).drop_last() =~= kids@);
            }
            kids.push(kid);
            i = i + 1;
        }
        proof {
            assert(self.children@.take(i as int) =~= self.children@);
            lemma_view_children(*self);
        }
        tree_node(self.id, kids)
    }

    /// The ids of the tree in depth-first preorder.
    pub fn preorder(&self) -> (out: Vec<i64>)
        ensures
            out@ == self@.ids(),
    {
        tree_values(self.to_tree())
    }
}

} // verus!
