//! The links of a tree describe that tree and no other.

use vstd::prelude::*;
use crate::builder::{describes, lemma_tree_climbs, parents_agree, sibling_order};
use crate::edit::lemma_children_ids;
use crate::edit_lemmas::{lemma_child_below, lemma_find_distinct};
use crate::links::{
    dangling, has_id, ids_at, is_head, is_walk, lemma_path_key, lemma_position, lemma_successor,
    lemma_walks_agree, on_chain, position, rooted, second_head, successor, valid, well_formed,
};
use crate::node::{
    forest_ids, lemma_child_find, lemma_children_distinct, lemma_find_contains,
    lemma_forest_distinct, lemma_forest_member, Outline,
};
use crate::records::{BlockLink, ROOT_ID};
use crate::serializer::{forest_links, parent_field};

verus! {

/// The link of the `k`-th child of the node `q`.
pub open spec fn link_in(t: Outline, q: i64, k: int) -> BlockLink {
    BlockLink {
        id: t.children_of(q)[k],
        parent_id: parent_field(q),
        next_sibling_id: if k + 1 < t.children_of(q).len() {
            Some(t.children_of(q)[k + 1])
        } else {
            None
        },
    }
}

/// The links of a row of trees carry the ids of the row, in preorder.
pub proof fn lemma_forest_links_ids(s: Seq<Outline>, parent: i64, after: Option<i64>)
    ensures
        forest_links(s, parent, after).len() == forest_ids(s).len(),
        forall|j: int|
            0 <= j < forest_ids(s).len() ==> (#[trigger] forest_links(s, parent, after)[j]).id
                == forest_ids(s)[j],
    decreases s, 0int,
{
    if s.len() > 0 {
        lemma_forest_links_ids(s.drop_last(), parent, Some(s.last().id));
        lemma_forest_links_ids(s.last().children, s.last().id, None);
        let a = forest_links(s.drop_last(), parent, Some(s.last().id));
        let below = forest_links(s.last().children, s.last().id, None);
        let b = s.last().links_under(parent, after);
        assert(b.len() == 1 + below.len());
        assert(s.last().ids().len() == 1 + forest_ids(s.last().children).len());
        assert(forest_links(s, parent, after) == a + b);
        assert(forest_ids(s) == forest_ids(s.drop_last()) + s.last().ids());
        assert forall|j: int| 0 <= j < forest_ids(s).len() implies (#[trigger] forest_links(
            s,
            parent,
            after,
        )[j]).id == forest_ids(s)[j] by {
            if j >= a.len() {
                let m = j - a.len();
                assert((a + b)[j] == b[m]);
                if m > 0 {
                    assert(b[m] == below[m - 1]);
                    assert(s.last().ids()[m] == forest_ids(s.last().children)[m - 1]);
                }
            } else {
                assert((a + b)[j] == a[j]);
            }
        }
    }
}

/// The links of a row of trees hold the link of each tree of the row, and
/// the links of everything below it.
pub proof fn lemma_forest_links_hold(
    s: Seq<Outline>,
    parent: i64,
    after: Option<i64>,
    c: int,
    l: BlockLink,
)
    requires
        0 <= c < s.len(),
    ensures
        forest_links(s, parent, after).contains(
            BlockLink {
                id: s[c].id,
                parent_id: parent_field(parent),
                next_sibling_id: if c + 1 < s.len() {
                    Some(s[c + 1].id)
                } else {
                    after
                },
            },
        ),
        s[c].links().contains(l) ==> forest_links(s, parent, after).contains(l),
    decreases s.len(),
{
    let a = forest_links(s.drop_last(), parent, Some(s.last().id));
    let b = s.last().links_under(parent, after);
    let top = BlockLink {
        id: s[c].id,
        parent_id: parent_field(parent),
        next_sibling_id: if c + 1 < s.len() {
            Some(s[c + 1].id)
        } else {
            after
        },
    };
    if c < s.len() - 1 {
        lemma_forest_links_hold(s.drop_last(), parent, Some(s.last().id), c, l);
        let k = choose|k: int| 0 <= k < a.len() && a[k] == top;
        assert((a + b)[k] == top);
        if s[c].links().contains(l) {
            let k2 = choose|k2: int| 0 <= k2 < a.len() && a[k2] == l;
            assert((a + b)[k2] == l);
        }
    } else {
        assert((a + b)[a.len() as int] == b[0]);
        if s[c].links().contains(l) {
            let k2 = choose|k2: int| 0 <= k2 < s[c].links().len() && s[c].links()[k2] == l;
            assert(b[k2 + 1] == l);
            assert((a + b)[a.len() + k2 + 1] == l);
        }
    }
}

/// The links of a tree hold the link of every child of every node.
pub proof fn lemma_links_hold(t: Outline, q: i64, k: int)
    requires
        t.distinct(),
        0 <= k < t.children_of(q).len(),
    ensures
        t.links().contains(link_in(t, q, k)),
    decreases t,
{
    let s = t.children;
    lemma_find_contains(t, q);
    if t.id == q {
        lemma_forest_links_hold(s, t.id, None, k, link_in(t, q, k));
        assert(t.child_ids()[k] == s[k].id);
        if k + 1 < s.len() {
            assert(t.child_ids()[k + 1] == s[k + 1].id);
        }
    } else {
        lemma_children_ids(t);
        lemma_forest_member(s, q);
        let c = choose|c: int| 0 <= c < s.len() && #[trigger] s[c].contains(q);
        lemma_children_distinct(t, c, c);
        lemma_child_find(t, c, q);
        lemma_links_hold(s[c], q, k);
        lemma_forest_links_hold(s, t.id, None, c, link_in(t, q, k));
    }
}

/// Every node below the top is a child of some node.
pub proof fn lemma_has_parent(t: Outline, x: i64) -> (at: (i64, int))
    requires
        t.distinct(),
        t.contains(x),
        x != t.id,
    ensures
        0 <= at.1 < t.children_of(at.0).len(),
        t.children_of(at.0)[at.1] == x,
    decreases t,
{
    let s = t.children;
    lemma_children_ids(t);
    lemma_forest_member(s, x);
    let c = choose|c: int| 0 <= c < s.len() && #[trigger] s[c].contains(x);
    lemma_children_distinct(t, c, c);
    if s[c].id == x {
        assert(t.find(t.id) == Some(t));
        assert(t.child_ids()[c] == x);
        (t.id, c)
    } else {
        let at = lemma_has_parent(s[c], x);
        lemma_child_below(s[c], at.0, at.1);
        lemma_child_find(t, c, at.0);
        at
    }
}

/// The children of a node have ids of their own.
pub proof fn lemma_child_ids_distinct(t: Outline, p: i64)
    requires
        t.distinct(),
    ensures
        t.children_of(p).no_duplicates(),
{
    lemma_find_contains(t, p);
    if t.find(p) is Some {
        lemma_find_distinct(t, p);
        let pn = t.find(p)->Some_0;
        lemma_children_ids(pn);
        let ids = pn.child_ids();
        assert forall|a: int, b: int|
            0 <= a < ids.len() && 0 <= b < ids.len() && a != b implies ids[a] != ids[b] by {
            lemma_forest_distinct(pn.children, a, b);
            assert(pn.children[a].ids()[0] == pn.children[a].id);
            assert(pn.children[b].ids()[0] == pn.children[b].id);
            assert(pn.children[a].contains(pn.children[a].id));
            assert(pn.children[b].contains(pn.children[b].id));
        }
    }
}

/// The links of a tree under the page root are well formed, and carry the
/// ids of the tree's blocks.
pub proof fn lemma_links_well_formed(t: Outline)
    requires
        t.id == ROOT_ID,
        t.distinct(),
    ensures
        well_formed(t.links()),
        forall|x: i64| has_id(t.links(), x) <==> t.contains(x) && x != ROOT_ID,
{
    let links = t.links();
    let ids = forest_ids(t.children);
    lemma_children_ids(t);
    lemma_forest_links_ids(t.children, t.id, None);
    assert forall|i: int| 0 <= i < links.len() implies #[trigger] links[i].id != ROOT_ID by {
        assert(ids.contains(ids[i]));
    }
    assert forall|x: i64| has_id(links, x) <==> t.contains(x) && x != ROOT_ID by {
        if has_id(links, x) {
            let j = choose|j: int| 0 <= j < links.len() && #[trigger] links[j].id == x;
            assert(ids.contains(ids[j]));
        }
        if t.contains(x) && x != ROOT_ID {
            let j = choose|j: int| 0 <= j < ids.len() && ids[j] == x;
            assert(links[j].id == x);
        }
    }
}

/// Where the link of a child stands among the links of its tree.
pub proof fn lemma_link_at(t: Outline, q: i64, k: int) -> (j: int)
    requires
        t.id == ROOT_ID,
        t.distinct(),
        0 <= k < t.children_of(q).len(),
    ensures
        0 <= j < t.links().len(),
        t.links()[j] == link_in(t, q, k),
        j == position(t.links(), t.children_of(q)[k]),
        has_id(t.links(), t.children_of(q)[k]),
{
    let links = t.links();
    lemma_links_hold(t, q, k);
    lemma_links_well_formed(t);
    let j = choose|j: int| 0 <= j < links.len() && links[j] == link_in(t, q, k);
    lemma_position(links, j);
    j
}

/// Every link of a tree is the link of a child of some node.
pub proof fn lemma_link_shape(t: Outline, j: int) -> (at: (i64, int))
    requires
        t.id == ROOT_ID,
        t.distinct(),
        0 <= j < t.links().len(),
    ensures
        0 <= at.1 < t.children_of(at.0).len(),
        t.links()[j] == link_in(t, at.0, at.1),
        t.links()[j].spec_key() == at.0,
{
    let links = t.links();
    lemma_links_well_formed(t);
    lemma_position(links, j);
    let x = links[j].id;
    let at = lemma_has_parent(t, x);
    lemma_link_at(t, at.0, at.1);
    at
}

/// The links of a tree under the page root describe the tree.
pub proof fn lemma_describes_own_links(t: Outline)
    requires
        t.id == ROOT_ID,
        t.distinct(),
    ensures
        describes(t, t.links()),
{
    let links = t.links();
    lemma_links_well_formed(t);
    assert(t.contains(ROOT_ID)) by {
        assert(t.ids()[0] == ROOT_ID);
    }
    assert forall|p: i64| sibling_order(links, p, #[trigger] t.children_of(p)) by {
        let order = t.children_of(p);
        if order.len() == 0 {
            assert forall|i: int| 0 <= i < links.len() implies #[trigger] links[i].spec_key()
                != p by {
                lemma_link_shape(t, i);
            }
        } else {
            lemma_own_walk(t, p);
        }
    }
}

/// The places of the children of a node, in order, among the links of the
/// tree.
pub open spec fn places_of(t: Outline, p: i64) -> Seq<int> {
    Seq::new(t.children_of(p).len(), |k: int| position(t.links(), t.children_of(p)[k]))
}

/// The links of the children of a node form the sibling walk under it.
proof fn lemma_own_walk(t: Outline, p: i64)
    requires
        t.id == ROOT_ID,
        t.distinct(),
        t.children_of(p).len() > 0,
    ensures
        is_walk(t.links(), places_of(t, p)),
        t.links()[places_of(t, p)[0]].spec_key() == p,
        t.children_of(p) == ids_at(t.links(), places_of(t, p)),
{
    let links = t.links();
    let order = t.children_of(p);
    let w = places_of(t, p);
    lemma_links_well_formed(t);
    lemma_child_ids_distinct(t, p);
    assert forall|k: int| 0 <= k < w.len() implies 0 <= #[trigger] w[k] < links.len() && links[w[k]]
        == link_in(t, p, k) by {
        lemma_link_at(t, p, k);
    }
    assert forall|k: int| 0 <= k < w.len() - 1 implies successor(links, #[trigger] w[k]) == Some(
        w[k + 1],
    ) by {
        lemma_link_at(t, p, k);
        lemma_link_at(t, p, k + 1);
        assert(links[w[k]] == link_in(t, p, k));
        assert(links[w[k + 1]] == link_in(t, p, k + 1));
    }
    assert(successor(links, w.last()) is None) by {
        lemma_link_at(t, p, w.len() - 1);
        assert(links[w[w.len() - 1]] == link_in(t, p, w.len() - 1));
    }
    assert(is_head(links, w[0])) by {
        assert forall|j: int| 0 <= j < links.len() implies #[trigger] successor(links, j) != Some(
            w[0],
        ) by {
            if successor(links, j) == Some(w[0]) {
                lemma_link_at(t, p, 0);
                assert(links[w[0]] == link_in(t, p, 0));
                lemma_successor(links, j);
                let at = lemma_link_shape(t, j);
                assert(at.0 == p);
                assert(order[at.1 + 1] == order[0]);
            }
        }
    }
    assert(order =~= ids_at(links, w));
}

/// Links that a tree describes are valid.
pub proof fn lemma_described_valid(t: Outline, links: Seq<BlockLink>)
    requires
        well_formed(links),
        describes(t, links),
    ensures
        valid(links),
        parents_agree(t, links),
{
    assert(parents_agree(t, links)) by {
        assert forall|p: i64, x: i64| #[trigger] t.children_of(p).contains(x) implies has_id(
            links,
            x,
        ) && links[position(links, x)].spec_key() == p by {
            lemma_child_key(t, links, p, x);
        }
    }
    assert forall|i: int| 0 <= i < links.len() implies on_chain(links, i) && !dangling(links, i)
        && rooted(links, i) && !second_head(links, i) by {
        let x = links[i].id;
        lemma_position(links, i);
        assert(t.contains(x));
        let at = lemma_has_parent(t, x);
        let p = at.0;
        let order = t.children_of(p);
        assert(order.contains(x));
        lemma_child_key(t, links, p, x);
        assert(sibling_order(links, p, order));
        let w = choose|w: Seq<int>| #[trigger]
            is_walk(links, w) && links[w[0]].spec_key() == p && order == ids_at(links, w);
        assert(ids_at(links, w)[at.1] == x);
        lemma_position(links, w[at.1]);
        assert(w[at.1] == i);
        assert(w.contains(i));
        lemma_child_below(t, p, at.1);
        lemma_tree_climbs(t, links, x);
        if second_head(links, i) {
            let j = choose|j: int|
                0 <= j < i && is_head(links, j) && #[trigger] links[j].spec_key()
                    == links[i].spec_key();
            let y = links[j].id;
            lemma_position(links, j);
            assert(t.contains(y));
            let at2 = lemma_has_parent(t, y);
            assert(t.children_of(at2.0).contains(y));
            lemma_child_key(t, links, at2.0, y);
            assert(at2.0 == p);
            assert(ids_at(links, w)[at2.1] == y);
            lemma_position(links, w[at2.1]);
            assert(w[at2.1] == j);
            if at.1 > 0 {
                assert(successor(links, w[at.1 - 1]) == Some(w[at.1 - 1 + 1]));
            }
            if at2.1 > 0 {
                assert(successor(links, w[at2.1 - 1]) == Some(w[at2.1 - 1 + 1]));
            }
        }
    }
}

/// A child in a tree that the links describe is a link under its parent.
proof fn lemma_child_key(t: Outline, links: Seq<BlockLink>, p: i64, x: i64)
    requires
        well_formed(links),
        describes(t, links),
        t.children_of(p).contains(x),
    ensures
        has_id(links, x),
        links[position(links, x)].spec_key() == p,
{
    let order = t.children_of(p);
    assert(sibling_order(links, p, order));
    let w = choose|w: Seq<int>| #[trigger]
        is_walk(links, w) && links[w[0]].spec_key() == p && order == ids_at(links, w);
    let k = choose|k: int| 0 <= k < order.len() && order[k] == x;
    assert(ids_at(links, w)[k] == x);
    lemma_position(links, w[k]);
    lemma_path_key(links, w, k);
}

/// Two nodes with the same id, in trees whose nodes have the same children,
/// are the same.
proof fn lemma_same_tree(a: Outline, b: Outline, t: Outline, u: Outline)
    requires
        a.id == b.id,
        a.distinct(),
        b.distinct(),
        forall|p: i64| #[trigger] t.children_of(p) == u.children_of(p),
        forall|p: i64| a.contains(p) ==> a.children_of(p) == #[trigger] t.children_of(p),
        forall|p: i64| b.contains(p) ==> b.children_of(p) == #[trigger] u.children_of(p),
    ensures
        a == b,
    decreases a,
{
    assert(a.contains(a.id)) by {
        assert(a.ids()[0] == a.id);
    }
    assert(b.contains(b.id)) by {
        assert(b.ids()[0] == b.id);
    }
    assert(a.find(a.id) == Some(a));
    assert(b.find(b.id) == Some(b));
    assert(a.child_ids() == b.child_ids()) by {
        assert(a.children_of(a.id) == t.children_of(a.id));
        assert(b.children_of(b.id) == u.children_of(b.id));
    }
    assert(a.children.len() == b.children.len()) by {
        assert(a.child_ids().len() == b.child_ids().len());
    }
    assert forall|c: int| 0 <= c < a.children.len() implies a.children[c] == b.children[c] by {
        assert(a.child_ids()[c] == b.child_ids()[c]);
        lemma_children_distinct(a, c, c);
        lemma_children_distinct(b, c, c);
        assert forall|p: i64| a.children[c].contains(p) implies a.children[c].children_of(p)
            == #[trigger] t.children_of(p) by {
            lemma_child_find(a, c, p);
        }
        assert forall|p: i64| b.children[c].contains(p) implies b.children[c].children_of(p)
            == #[trigger] u.children_of(p) by {
            lemma_child_find(b, c, p);
        }
        lemma_same_tree(a.children[c], b.children[c], t, u);
    }
    assert(a.children =~= b.children);
}

/// Links describe at most one tree.
pub proof fn lemma_one_tree(t: Outline, u: Outline, links: Seq<BlockLink>)
    requires
        well_formed(links),
        describes(t, links),
        describes(u, links),
    ensures
        t == u,
{
    lemma_described_valid(t, links);
    assert forall|p: i64| #[trigger] t.children_of(p) == u.children_of(p) by {
        let a = t.children_of(p);
        let b = u.children_of(p);
        assert(sibling_order(links, p, a));
        assert(sibling_order(links, p, b));
        if a.len() > 0 {
            let w = choose|w: Seq<int>| #[trigger]
                is_walk(links, w) && links[w[0]].spec_key() == p && a == ids_at(links, w);
            assert(0 <= w[0] < links.len());
            if b.len() > 0 {
                let v = choose|v: Seq<int>| #[trigger]
                    is_walk(links, v) && links[v[0]].spec_key() == p && b == ids_at(links, v);
                assert(0 <= v[0] < links.len());
                if w[0] < v[0] {
                    assert(second_head(links, v[0]));
                } else if v[0] < w[0] {
                    assert(second_head(links, w[0]));
                }
                lemma_walks_agree(links, w, v);
            }
        } else if b.len() > 0 {
            let v = choose|v: Seq<int>| #[trigger]
                is_walk(links, v) && links[v[0]].spec_key() == p && b == ids_at(links, v);
            assert(0 <= v[0] < links.len());
        } else {
            assert(a =~= b);
        }
    }
    lemma_same_tree(t, u, t, u);
}

} // verus!
