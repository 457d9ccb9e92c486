//! Growing a tree out of ordered child lists.

use std::collections::HashMap;
use vstd::prelude::*;
use vstd::seq_lib::lemma_no_dup_in_concat;
use vstd::set_lib::lemma_len_subset;
use vstd::std_specs::hash::*;
use crate::node::{
    forest_find, forest_ids, lemma_concat_contains, lemma_forest_find_contains,
    lemma_forest_ids_push, lemma_forest_ids_single, lemma_view_children, views, Outline,
    OutlineNode,
};

verus! {

broadcast use vstd::std_specs::hash::group_hash_axioms;

/// The child list that is kept for a parent; empty where none is kept.
pub open spec fn list_of(groups: Map<i64, Vec<i64>>, parent: i64) -> Seq<i64> {
    if groups.contains_key(parent) {
        groups[parent]@
    } else {
        Seq::empty()
    }
}

/// Some child list holds the id.
pub open spec fn listed(groups: Map<i64, Vec<i64>>, x: i64) -> bool {
    exists|k: i64| groups.contains_key(k) && #[trigger] groups[k]@.contains(x)
}

/// No child list holds an id twice, and no id is in two lists.
pub open spec fn separate(groups: Map<i64, Vec<i64>>) -> bool {
    &&& forall|k: i64| groups.contains_key(k) ==> #[trigger] groups[k]@.no_duplicates()
    &&& forall|k1: i64, k2: i64, x: i64|
        groups.contains_key(k1) && groups.contains_key(k2) && k1 != k2
            && #[trigger] groups[k1]@.contains(x) ==> !#[trigger] groups[k2]@.contains(x)
}

/// What is left of the lists is unchanged.
pub open spec fn remains(pre: Map<i64, Vec<i64>>, post: Map<i64, Vec<i64>>) -> bool {
    forall|k: i64| #[trigger] post.contains_key(k) ==> pre.contains_key(k) && post[k] == pre[k]
}

/// The id is in a list that was used up between `pre` and `post`.
pub open spec fn taken(pre: Map<i64, Vec<i64>>, post: Map<i64, Vec<i64>>, x: i64) -> bool {
    exists|k: i64|
        pre.contains_key(k) && !post.contains_key(k) && #[trigger] pre[k]@.contains(x)
}

/// The child ids of the node with id `parent` in a row of trees.
pub open spec fn forest_children_of(forest: Seq<Outline>, parent: i64) -> Seq<i64> {
    match forest_find(forest, parent) {
        Some(n) => n.child_ids(),
        None => Seq::empty(),
    }
}

/// The row of trees was grown from the given roots by using up child lists:
/// it holds the roots and what the used lists name, each id once, every
/// node has the children that its list names, and the list of every node
/// was used.
#[verifier::opaque]
pub open spec fn grown(
    pre: Map<i64, Vec<i64>>,
    post: Map<i64, Vec<i64>>,
    roots: Seq<i64>,
    forest: Seq<Outline>,
) -> bool {
    &&& remains(pre, post)
    &&& forest.len() == roots.len()
    &&& forall|c: int| 0 <= c < forest.len() ==> #[trigger] forest[c].id == roots[c]
    &&& forest_ids(forest).no_duplicates()
    &&& forall|x: i64| #[trigger]
        forest_ids(forest).contains(x) <==> roots.contains(x) || taken(pre, post, x)
    &&& forall|p: i64| #[trigger]
        forest_ids(forest).contains(p) ==> !post.contains_key(p) && forest_children_of(forest, p)
            == list_of(pre, p)
    &&& forall|k: i64|
        pre.contains_key(k) && !#[trigger] post.contains_key(k) ==> forest_ids(forest).contains(k)
}

/// Nothing grows from no roots.
proof fn lemma_grown_empty(groups: Map<i64, Vec<i64>>)
    ensures
        grown(groups, groups, Seq::empty(), Seq::empty()),
{
    reveal(grown);
}

/// A row of trees grows by a tree that was grown from what the row left.
proof fn lemma_grown_push(
    g1: Map<i64, Vec<i64>>,
    g2: Map<i64, Vec<i64>>,
    g3: Map<i64, Vec<i64>>,
    roots: Seq<i64>,
    forest: Seq<Outline>,
    c: i64,
    t: Outline,
)
    requires
        separate(g1),
        grown(g1, g2, roots, forest),
        grown(g2, g3, seq![c], seq![t]),
        !roots.contains(c),
        !listed(g1, c),
        forall|r: i64| roots.contains(r) ==> !listed(g1, r),
    ensures
        grown(g1, g3, roots.push(c), forest.push(t)),
{
    reveal(grown);
    let a = forest_ids(forest);
    let b = t.ids();
    let roots2 = roots.push(c);
    let forest2 = forest.push(t);
    lemma_forest_ids_push(forest, t);
    lemma_forest_ids_single(t);
    assert(forest_ids(forest2) == a + b);
    assert(seq![c].contains(c)) by {
        assert(seq![c][0] == c);
    }
    assert forall|x: i64| b.contains(x) implies x == c || taken(g2, g3, x) by {
        if seq![c].contains(x) {
            let k = choose|k: int| 0 <= k < seq![c].len() && seq![c][k] == x;
        }
    }
    assert forall|x: i64| a.contains(x) implies !b.contains(x) by {
        if b.contains(x) {
            if roots.contains(x) {
                assert(!listed(g1, x));
                if x != c {
                    let k2 = choose|k: i64|
                        g2.contains_key(k) && !g3.contains_key(k) && #[trigger] g2[k]@.contains(x);
                    assert(g1.contains_key(k2) && g1[k2]@.contains(x));
                }
            } else {
                let k1 = choose|k: i64|
                    g1.contains_key(k) && !g2.contains_key(k) && #[trigger] g1[k]@.contains(x);
                if x != c {
                    let k2 = choose|k: i64|
                        g2.contains_key(k) && !g3.contains_key(k) && #[trigger] g2[k]@.contains(x);
                    assert(g1.contains_key(k2) && g1[k2]@.contains(x));
                }
            }
        }
    }
    assert forall|i: int, j: int| 0 <= i < a.len() && 0 <= j < b.len() implies a[i] != b[j] by {
        assert(a.contains(a[i]));
        assert(b.contains(b[j]));
    }
    lemma_no_dup_in_concat(a, b);
    assert forall|x: i64| #[trigger] forest_ids(forest2).contains(x) <==> roots2.contains(x)
        || taken(g1, g3, x) by {
        lemma_concat_contains(a, b, x);
        vstd::seq_lib::lemma_seq_contains_after_push(roots, c, x);
        if taken(g1, g2, x) {
            let k = choose|k: i64|
                g1.contains_key(k) && !g2.contains_key(k) && #[trigger] g1[k]@.contains(x);
            assert(g1.contains_key(k) && !g3.contains_key(k) && g1[k]@.contains(x));
        }
        if taken(g2, g3, x) {
            let k = choose|k: i64|
                g2.contains_key(k) && !g3.contains_key(k) && #[trigger] g2[k]@.contains(x);
            assert(g1.contains_key(k) && !g3.contains_key(k) && g1[k]@.contains(x));
        }
        if taken(g1, g3, x) {
            let k = choose|k: i64|
                g1.contains_key(k) && !g3.contains_key(k) && #[trigger] g1[k]@.contains(x);
            if g2.contains_key(k) {
                assert(g2.contains_key(k) && !g3.contains_key(k) && g2[k]@.contains(x));
            } else {
                assert(g1.contains_key(k) && !g2.contains_key(k) && g1[k]@.contains(x));
            }
        }
    }
    assert forall|p: i64| #[trigger] forest_ids(forest2).contains(p) implies !g3.contains_key(p)
        && forest_children_of(forest2, p) == list_of(g1, p) by {
        lemma_concat_contains(a, b, p);
        lemma_forest_find_contains(forest, p);
        lemma_forest_find_contains(seq![t], p);
        if a.contains(p) {
        } else {
            assert(forest_find(forest2, p) == t.find(p));
            lemma_forest_ids_push(Seq::<Outline>::empty(), t);
            assert(Seq::<Outline>::empty().push(t) =~= seq![t]);
            assert(forest_find(seq![t], p) == t.find(p));
            if g1.contains_key(p) && !g2.contains_key(p) {
                assert(a.contains(p));
            }
        }
    }
    assert forall|k: i64| g1.contains_key(k) && !#[trigger] g3.contains_key(k) implies forest_ids(
        forest2,
    ).contains(k) by {
        lemma_concat_contains(a, b, k);
    }
    assert forall|cc: int| 0 <= cc < forest2.len() implies #[trigger] forest2[cc].id
        == roots2[cc] by {
        if cc < forest.len() {
            assert(forest[cc].id == roots[cc]);
        } else {
            assert(seq![t][0].id == seq![c][0]);
        }
    }
}

/// A node over a row of trees that was grown from the node's child list is
/// a tree grown from the node.
proof fn lemma_grown_node(
    g0: Map<i64, Vec<i64>>,
    g3: Map<i64, Vec<i64>>,
    id: i64,
    forest: Seq<Outline>,
)
    requires
        separate(g0),
        !listed(g0, id),
        grown(g0.remove(id), g3, list_of(g0, id), forest),
    ensures
        grown(g0, g3, seq![id], seq![Outline { id: id, children: forest }]),
{
    reveal(grown);
    let g1 = g0.remove(id);
    let kids = list_of(g0, id);
    let t = Outline { id: id, children: forest };
    let a = seq![id];
    let b = forest_ids(forest);
    lemma_forest_ids_single(t);
    assert(forest_ids(seq![t]) == a + b);
    assert(a.contains(id)) by {
        assert(a[0] == id);
    }
    assert forall|x: i64| kids.contains(x) implies listed(g0, x) && taken(g0, g3, x) by {
        assert(g0.contains_key(id) && g0[id]@.contains(x));
    }
    assert forall|x: i64| taken(g1, g3, x) implies listed(g0, x) && taken(g0, g3, x) by {
        let k = choose|k: i64|
            g1.contains_key(k) && !g3.contains_key(k) && #[trigger] g1[k]@.contains(x);
        assert(g0.contains_key(k) && !g3.contains_key(k) && g0[k]@.contains(x));
    }
    assert(!b.contains(id));
    assert forall|i: int, j: int| 0 <= i < a.len() && 0 <= j < b.len() implies a[i] != b[j] by {
        assert(b.contains(b[j]));
    }
    lemma_no_dup_in_concat(a, b);
    assert forall|x: i64| #[trigger] forest_ids(seq![t]).contains(x) <==> a.contains(x) || taken(
        g0,
        g3,
        x,
    ) by {
        lemma_concat_contains(a, b, x);
        if a.contains(x) {
            let k = choose|k: int| 0 <= k < a.len() && a[k] == x;
        }
        if taken(g0, g3, x) {
            let k = choose|k: i64|
                g0.contains_key(k) && !g3.contains_key(k) && #[trigger] g0[k]@.contains(x);
            if k == id {
                assert(kids.contains(x));
            } else {
                assert(g1.contains_key(k) && !g3.contains_key(k) && g1[k]@.contains(x));
            }
        }
    }
    assert(!g3.contains_key(id)) by {
        if g3.contains_key(id) {
            assert(g1.contains_key(id));
        }
    }
    assert forall|p: i64| #[trigger] forest_ids(seq![t]).contains(p) implies !g3.contains_key(p)
        && forest_children_of(seq![t], p) == list_of(g0, p) by {
        lemma_concat_contains(a, b, p);
        lemma_forest_ids_push(Seq::<Outline>::empty(), t);
        assert(Seq::<Outline>::empty().push(t) =~= seq![t]);
        assert(forest_find(seq![t], p) == t.find(p));
        if p == id {
            assert(t.child_ids() =~= kids);
        } else {
            assert(a.contains(p) ==> p == id) by {
                if a.contains(p) {
                    let k = choose|k: int| 0 <= k < a.len() && a[k] == p;
                }
            }
            assert(t.find(p) == forest_find(forest, p));
        }
    }
    assert forall|k: i64| g0.contains_key(k) && !#[trigger] g3.contains_key(k) implies forest_ids(
        seq![t],
    ).contains(k) by {
        lemma_concat_contains(a, b, k);
        if k != id {
            assert(g1.contains_key(k));
        }
    }
}

/// Lists that remain of separate lists are separate, and they are no more.
proof fn lemma_remains(pre: Map<i64, Vec<i64>>, post: Map<i64, Vec<i64>>)
    requires
        remains(pre, post),
        pre.dom().finite(),
    ensures
        separate(pre) ==> separate(post),
        forall|x: i64| listed(post, x) ==> listed(pre, x),
        post.dom().len() <= pre.dom().len(),
{
    assert forall|x: i64| listed(post, x) implies listed(pre, x) by {
        let k = choose|k: i64| post.contains_key(k) && #[trigger] post[k]@.contains(x);
        assert(pre.contains_key(k) && pre[k]@.contains(x));
    }
    assert(post.dom().subset_of(pre.dom()));
    lemma_len_subset(post.dom(), pre.dom());
}

/// Builds the node with the given id and everything below it, using up the
/// child list of every node it builds.
pub(crate) fn assemble(id: i64, groups: &mut HashMap<i64, Vec<i64>>) -> (node: OutlineNode)
    requires
        separate(old(groups)@),
        !listed(old(groups)@, id),
    ensures
        node.id == id,
        grown(old(groups)@, final(groups)@, seq![id], seq![node@]),
    decreases old(groups)@.dom().len(),
{
    let ghost g0 = groups@;
    let kids: Vec<i64> = match groups.remove(&id) {
        Some(list) => list,
        None => Vec::new(),
    };
    let ghost g1 = groups@;
    proof {
        assert(g1 == g0.remove(id));
        assert(kids@ == list_of(g0, id));
        assert(remains(g0, g1));
        lemma_remains(g0, g1);
        lemma_grown_empty(g1);
        if kids@.len() > 0 {
            assert(g0.contains_key(id));
            assert(g0.dom().len() == g1.dom().len() + 1);
        }
    }
    let mut children: Vec<OutlineNode> = Vec::new();
    let mut i: usize = 0;
    proof {
        assert(kids@.take(0) =~= Seq::<i64>::empty());
        assert(views(children@) =~= Seq::<Outline>::empty());
    }
    while i < kids.len()
        invariant
            i <= kids@.len(),
            g0 == old(groups)@,
            children@.len() == i,
            separate(g0),
            separate(g1),
            g1 == g0.remove(id),
            kids@ == list_of(g0, id),
            g0.dom().finite(),
            g1.dom().finite(),
            kids@.len() > 0 ==> g1.dom().len() < g0.dom().len(),
            remains(g1, groups@),
            grown(g1, groups@, kids@.take(i as int), views(children@)),
        decreases kids@.len() - i,
    {
        let kid = kids[i];
        let ghost g2 = groups@;
        proof {
            lemma_remains(g1, g2);
            assert(!listed(g1, kid)) by {
                if listed(g1, kid) {
                    let k = choose|k: i64| g1.contains_key(k) && #[trigger] g1[k]@.contains(kid);
                    assert(g0.contains_key(k) && g0.contains_key(id) && k != id);
                    assert(g0[id]@.contains(kid));
                }
            }
        }
        let child = assemble(kid, groups);
        proof {
            let roots = kids@.take(i as int);
            assert(!roots.contains(kid)) by {
                if roots.contains(kid) {
                    let c = choose|c: int| 0 <= c < roots.len() && roots[c] == kid;
                    assert(g0[id]@.no_duplicates());
                    assert(kids@[c] == kids@[i as int]);
                }
            }
            assert forall|r: i64| roots.contains(r) implies !listed(g1, r) by {
                let c = choose|c: int| 0 <= c < roots.len() && roots[c] == r;
                assert(g0[id]@.contains(r));
                if listed(g1, r) {
                    let k = choose|k: i64| g1.contains_key(k) && #[trigger] g1[k]@.contains(r);
                    assert(g0.contains_key(k) && g0.contains_key(id) && k != id);
                }
            }
            lemma_grown_push(g1, g2, groups@, roots, views(children@), kid, child@);
            assert(kids@.take(i + 1) =~= roots.push(kid));
            assert(views(children@.push(child)) =~= views(children@).push(child@));
            assert(remains(g1, groups@)) by {
                reveal(grown);
            }
        }
        children.push(child);
        i = i + 1;
    }
    let node = OutlineNode { id: id, children: children };
    proof {
        assert(kids@.take(i as int) =~= kids@);
        lemma_view_children(node);
        lemma_grown_node(g0, groups@, id, views(node.children@));
        assert(node@ == Outline { id: id, children: views(node.children@) });
    }
    node
}

} // verus!
