//! Which ids an edited outline holds.

use vstd::prelude::*;
use vstd::seq_lib::lemma_no_dup_in_concat;
use crate::edit::{
    clamped, forest_promoted, forest_with_child, forest_without, lemma_absent, lemma_children_ids,
    lemma_forest_edit_at, lemma_forest_edit_single, lemma_forest_split,
};
use crate::node::{
    forest_find, forest_ids, lemma_child_find, lemma_children_distinct, lemma_concat_contains,
    lemma_concat_distinct, lemma_find_contains, lemma_forest_ids_concat, lemma_forest_ids_single,
    lemma_forest_member, Outline,
};

verus! {

/// The ids of a row of trees in which one tree gives way to other trees.
pub proof fn lemma_forest_replace(s: Seq<Outline>, c: int, r: Seq<Outline>)
    requires
        forest_ids(s).no_duplicates(),
        0 <= c < s.len(),
        forest_ids(r).no_duplicates(),
        forall|x: i64|
            forest_ids(r).contains(x) ==> s[c].contains(x) || !forest_ids(s).contains(x),
    ensures
        forest_ids(s.take(c) + r + s.skip(c + 1)).no_duplicates(),
        forall|x: i64|
            forest_ids(s.take(c) + r + s.skip(c + 1)).contains(x) <==> forest_ids(r).contains(x)
                || (forest_ids(s).contains(x) && !s[c].contains(x)),
{
    let a = forest_ids(s.take(c));
    let m = s[c].ids();
    let b = forest_ids(s.skip(c + 1));
    let n = forest_ids(r);
    lemma_forest_split(s, c);
    lemma_forest_ids_concat(s.take(c) + r, s.skip(c + 1));
    lemma_forest_ids_concat(s.take(c), r);
    lemma_concat_distinct(a + m, b);
    lemma_concat_distinct(a, m);
    assert forall|x: i64|
        (forest_ids(s).contains(x) <==> a.contains(x) || m.contains(x) || b.contains(x)) && ((a
            + n + b).contains(x) <==> a.contains(x) || n.contains(x) || b.contains(x)) && (
        a.contains(x) ==> !m.contains(x) && !b.contains(x)) && (m.contains(x) ==> !b.contains(
            x,
        )) by {
        lemma_concat_contains(a + m, b, x);
        lemma_concat_contains(a, m, x);
        lemma_concat_contains(a + n, b, x);
        lemma_concat_contains(a, n, x);
    }
    assert forall|i: int, j: int| 0 <= i < a.len() && 0 <= j < n.len() implies a[i] != n[j] by {
        assert(a.contains(a[i]));
        assert(n.contains(n[j]));
    }
    lemma_no_dup_in_concat(a, n);
    assert forall|i: int, j: int| 0 <= i < (a + n).len() && 0 <= j < b.len() implies (a + n)[i]
        != b[j] by {
        assert((a + n).contains((a + n)[i]));
        assert(b.contains(b[j]));
        lemma_concat_contains(a, n, (a + n)[i]);
    }
    lemma_no_dup_in_concat(a + n, b);
}

/// The ids of the children of a node, seen from the node.
pub proof fn lemma_node_ids(id: i64, children: Seq<Outline>)
    ensures
        forall|x: i64|
            (Outline { id: id, children: children }).contains(x) <==> x == id || forest_ids(
                children,
            ).contains(x),
        (Outline { id: id, children: children }).distinct() <==> forest_ids(
            children,
        ).no_duplicates() && !forest_ids(children).contains(id),
{
    let t = Outline { id: id, children: children };
    let a = seq![id];
    let b = forest_ids(children);
    assert(a[0] == id);
    assert forall|x: i64| t.contains(x) <==> x == id || b.contains(x) by {
        lemma_concat_contains(a, b, x);
        if a.contains(x) {
            let k = choose|k: int| 0 <= k < a.len() && a[k] == x;
        }
    }
    if t.distinct() {
        lemma_concat_distinct(a, b);
    }
    if b.no_duplicates() && !b.contains(id) {
        assert forall|i: int, j: int| 0 <= i < a.len() && 0 <= j < b.len() implies a[i] != b[j] by {
            assert(b.contains(b[j]));
        }
        lemma_no_dup_in_concat(a, b);
    }
}

/// Taking a subtree out of a tree without repeated ids leaves the ids that
/// the subtree did not hold, each once.
pub proof fn lemma_without_ids(t: Outline, id: i64)
    requires
        t.distinct(),
        id != t.id,
        t.contains(id),
    ensures
        t.without(id).distinct(),
        t.without(id).id == t.id,
        forall|x: i64|
            t.without(id).contains(x) <==> t.contains(x) && !t.find(id)->Some_0.contains(x),
    decreases t,
{
    let s = t.children;
    lemma_children_ids(t);
    lemma_forest_member(s, id);
    let c = choose|c: int| 0 <= c < s.len() && #[trigger] s[c].contains(id);
    lemma_children_distinct(t, c, c);
    lemma_forest_edit_at(s, c, id, 0, t);
    lemma_forest_edit_single(s[c], id);
    lemma_child_find(t, c, id);
    lemma_find_contains(s[c], id);
    let sub = t.find(id)->Some_0;
    let r = forest_without(seq![s[c]], id);
    if s[c].id == id {
        assert(sub == s[c]);
    } else {
        lemma_without_ids(s[c], id);
        lemma_forest_ids_single(s[c].without(id));
    }
    assert forall|x: i64| sub.contains(x) implies s[c].contains(x) by {
        if s[c].id != id {
            lemma_sub_contains(s[c], id, x);
        }
    }
    lemma_forest_replace(s, c, r);
    lemma_node_ids(t.id, forest_without(s, id));
    assert forall|x: i64|
        t.without(id).contains(x) <==> t.contains(x) && !sub.contains(x) by {
        assert(sub.ids()[0] == id) by {
            lemma_find_contains(t, id);
        }
    }
}

/// What a subtree holds, the tree holds.
pub proof fn lemma_sub_contains(t: Outline, id: i64, x: i64)
    requires
        t.find(id) is Some,
        t.find(id)->Some_0.contains(x),
    ensures
        t.contains(x),
    decreases t, 1int,
{
    if t.id != id {
        lemma_forest_sub_contains(t.children, id, x);
        lemma_concat_contains(seq![t.id], forest_ids(t.children), x);
    }
}

/// The same for a row of trees.
pub proof fn lemma_forest_sub_contains(s: Seq<Outline>, id: i64, x: i64)
    requires
        forest_find(s, id) is Some,
        forest_find(s, id)->Some_0.contains(x),
    ensures
        forest_ids(s).contains(x),
    decreases s, 0int,
{
    if s.len() > 0 {
        lemma_concat_contains(forest_ids(s.drop_last()), s.last().ids(), x);
        if forest_find(s.drop_last(), id) is Some {
            lemma_forest_sub_contains(s.drop_last(), id, x);
        } else {
            lemma_sub_contains(s.last(), id, x);
        }
    }
}

/// Removing a node from a tree without repeated ids while keeping its
/// children leaves all other ids, each once.
pub proof fn lemma_promoted_ids(t: Outline, id: i64)
    requires
        t.distinct(),
        id != t.id,
        t.contains(id),
    ensures
        t.promoted(id).distinct(),
        t.promoted(id).id == t.id,
        forall|x: i64| t.promoted(id).contains(x) <==> t.contains(x) && x != id,
    decreases t,
{
    let s = t.children;
    lemma_children_ids(t);
    lemma_forest_member(s, id);
    let c = choose|c: int| 0 <= c < s.len() && #[trigger] s[c].contains(id);
    lemma_children_distinct(t, c, c);
    lemma_forest_edit_at(s, c, id, 0, t);
    lemma_forest_edit_single(s[c], id);
    let r = forest_promoted(seq![s[c]], id);
    lemma_children_ids(s[c]);
    if s[c].id == id {
    } else {
        lemma_promoted_ids(s[c], id);
        lemma_forest_ids_single(s[c].promoted(id));
    }
    lemma_forest_replace(s, c, r);
    lemma_node_ids(t.id, forest_promoted(s, id));
}

/// Hanging a tree into a tree that shares no id with it gives a tree that
/// holds the ids of both, each once.
pub proof fn lemma_with_child_ids(t: Outline, parent: i64, index: int, node: Outline)
    requires
        t.distinct(),
        node.distinct(),
        t.contains(parent),
        0 <= index,
        forall|x: i64| node.contains(x) ==> !t.contains(x),
    ensures
        t.with_child(parent, index, node).distinct(),
        t.with_child(parent, index, node).id == t.id,
        forall|x: i64|
            t.with_child(parent, index, node).contains(x) <==> t.contains(x) || node.contains(x),
    decreases t,
{
    let s = t.children;
    lemma_children_ids(t);
    if t.id == parent {
        let k = clamped(index, s.len() as int);
        let grown = s.insert(k, node);
        assert(grown =~= s.take(k) + seq![node] + s.skip(k));
        assert(s =~= s.take(k) + s.skip(k));
        lemma_forest_ids_concat(s.take(k), s.skip(k));
        lemma_forest_ids_concat(s.take(k) + seq![node], s.skip(k));
        lemma_forest_ids_concat(s.take(k), seq![node]);
        lemma_forest_ids_single(node);
        let a = forest_ids(s.take(k));
        let b = forest_ids(s.skip(k));
        let n = node.ids();
        lemma_concat_distinct(a, b);
        assert forall|x: i64|
            (forest_ids(s).contains(x) <==> a.contains(x) || b.contains(x)) && ((a + n
                + b).contains(x) <==> a.contains(x) || n.contains(x) || b.contains(x)) by {
            lemma_concat_contains(a, b, x);
            lemma_concat_contains(a + n, b, x);
            lemma_concat_contains(a, n, x);
        }
        assert forall|i: int, j: int| 0 <= i < a.len() && 0 <= j < n.len() implies a[i]
            != n[j] by {
            assert(a.contains(a[i]));
            assert(n.contains(n[j]));
            assert(forest_ids(s).contains(a[i]));
            assert(t.contains(a[i]));
            assert(node.contains(n[j]));
        }
        lemma_no_dup_in_concat(a, n);
        assert forall|i: int, j: int| 0 <= i < (a + n).len() && 0 <= j < b.len() implies (a
            + n)[i] != b[j] by {
            let x = (a + n)[i];
            assert((a + n).contains(x));
            assert(b.contains(b[j]));
            lemma_concat_contains(a, n, x);
            assert(forest_ids(s).contains(b[j]));
            assert(t.contains(b[j]));
            if n.contains(x) {
                assert(node.contains(x));
            }
        }
        lemma_no_dup_in_concat(a + n, b);
        lemma_node_ids(t.id, grown);
    } else {
        lemma_forest_member(s, parent);
        let c = choose|c: int| 0 <= c < s.len() && #[trigger] s[c].contains(parent);
        lemma_children_distinct(t, c, c);
        lemma_forest_edit_at(s, c, parent, index, node);
        lemma_with_child_ids(s[c], parent, index, node);
        let r = seq![s[c].with_child(parent, index, node)];
        lemma_forest_ids_single(r[0]);
        assert forall|x: i64| node.contains(x) implies !forest_ids(s).contains(x) by {}
        lemma_forest_replace(s, c, r);
        lemma_node_ids(t.id, forest_with_child(s, parent, index, node));
    }
}

/// How many trees stay in a row from which the trees that start with `id`
/// are taken out.
pub open spec fn others(s: Seq<Outline>, id: i64) -> nat
    decreases s.len(),
{
    if s.len() == 0 {
        0
    } else {
        others(s.drop_last(), id) + if s.last().id == id {
            0nat
        } else {
            1nat
        }
    }
}

/// Taking `id` out of a row of trees leaves the trees that do not start
/// with it.
pub proof fn lemma_without_len(s: Seq<Outline>, id: i64)
    ensures
        forest_without(s, id).len() == others(s, id),
    decreases s.len(),
{
    if s.len() > 0 {
        lemma_without_len(s.drop_last(), id);
    }
}

/// A node outside the subtree that is taken out is found afterwards, with
/// the subtree taken out below it.
pub proof fn lemma_without_find(t: Outline, id: i64, p: i64)
    requires
        t.distinct(),
        id != t.id,
        t.contains(id),
        t.contains(p),
        !t.find(id)->Some_0.contains(p),
    ensures
        t.without(id).find(p) == Some(t.find(p)->Some_0.without(id)),
        t.without(id).children_of(p).len() == others(t.find(p)->Some_0.children, id),
    decreases t,
{
    let s = t.children;
    let after = t.without(id);
    lemma_find_contains(t, p);
    lemma_find_contains(t, id);
    lemma_without_len(t.find(p)->Some_0.children, id);
    if t.id == p {
    } else {
        lemma_children_ids(t);
        lemma_forest_member(s, id);
        lemma_forest_member(s, p);
        let ci = choose|c: int| 0 <= c < s.len() && #[trigger] s[c].contains(id);
        let cp = choose|c: int| 0 <= c < s.len() && #[trigger] s[c].contains(p);
        lemma_children_distinct(t, ci, cp);
        lemma_children_distinct(t, cp, ci);
        lemma_child_find(t, ci, id);
        lemma_child_find(t, cp, p);
        lemma_forest_edit_at(s, ci, id, 0, t);
        lemma_forest_edit_single(s[ci], id);
        lemma_without_ids(t, id);
        lemma_find_contains(s[ci], id);
        lemma_find_contains(s[cp], p);
        if ci == cp {
            if s[ci].id == id {
                assert(t.find(id) == Some(s[ci]));
            } else {
                lemma_without_ids(s[ci], id);
                lemma_without_find(s[ci], id, p);
                assert(after.children =~= s.take(ci) + seq![s[ci].without(id)] + s.skip(ci + 1));
                assert(after.children[ci] == s[ci].without(id));
                lemma_child_find(after, ci, p);
            }
        } else {
            let sub = s[cp].find(p)->Some_0;
            assert(!sub.contains(id)) by {
                if sub.contains(id) {
                    lemma_sub_contains(s[cp], p, id);
                }
            }
            lemma_absent(sub, id, 0, t);
            if s[ci].id == id {
                assert(after.children =~= s.take(ci) + s.skip(ci + 1));
                if cp < ci {
                    assert(after.children[cp] == s[cp]);
                    lemma_child_find(after, cp, p);
                } else {
                    assert(after.children[cp - 1] == s[cp]);
                    lemma_child_find(after, cp - 1, p);
                }
            } else {
                assert(after.children =~= s.take(ci) + seq![s[ci].without(id)] + s.skip(ci + 1));
                assert(after.children[cp] == s[cp]);
                lemma_child_find(after, cp, p);
            }
        }
    }
}

/// A subtree of a tree without repeated ids repeats no id.
pub proof fn lemma_find_distinct(t: Outline, id: i64)
    requires
        t.distinct(),
        t.contains(id),
    ensures
        t.find(id) is Some,
        t.find(id)->Some_0.distinct(),
        t.find(id)->Some_0.id == id,
    decreases t,
{
    lemma_find_contains(t, id);
    if t.id != id {
        lemma_children_ids(t);
        lemma_forest_member(t.children, id);
        let c = choose|c: int| 0 <= c < t.children.len() && #[trigger] t.children[c].contains(id);
        lemma_children_distinct(t, c, c);
        lemma_child_find(t, c, id);
        lemma_find_distinct(t.children[c], id);
    }
}

/// Whether one id stays when a subtree is taken out.
pub proof fn lemma_without_member(t: Outline, id: i64, x: i64)
    requires
        t.distinct(),
        id != t.id,
        t.contains(id),
    ensures
        t.without(id).contains(x) <==> t.contains(x) && !t.find(id)->Some_0.contains(x),
{
    lemma_without_ids(t, id);
}

/// Whether one id stays when a node is removed and its children are kept.
pub proof fn lemma_promoted_member(t: Outline, id: i64, x: i64)
    requires
        t.distinct(),
        id != t.id,
        t.contains(id),
    ensures
        t.promoted(id).contains(x) <==> t.contains(x) && x != id,
{
    lemma_promoted_ids(t, id);
}

/// In a tree without repeated ids, a child is in the tree, below the top,
/// and so is its parent.
pub proof fn lemma_child_below(t: Outline, parent: i64, k: int)
    requires
        t.distinct(),
        0 <= k < t.children_of(parent).len(),
    ensures
        t.contains(parent),
        t.contains(t.children_of(parent)[k]),
        t.children_of(parent)[k] != t.id,
    decreases t,
{
    let s = t.children;
    lemma_find_contains(t, parent);
    lemma_children_ids(t);
    if t.id == parent {
        lemma_children_distinct(t, k, k);
        assert(s[k].ids()[0] == s[k].id);
        assert(t.child_ids()[k] == s[k].id);
    } else {
        lemma_forest_member(s, parent);
        let c = choose|c: int| 0 <= c < s.len() && #[trigger] s[c].contains(parent);
        lemma_children_distinct(t, c, c);
        lemma_child_find(t, c, parent);
        lemma_child_below(s[c], parent, k);
    }
}

/// Promote-on-remove, seen from the parent: where a block is removed and
/// its children are kept, they stand where the block stood among the
/// children of its parent, in their order, and the siblings stay around
/// them.
pub proof fn lemma_promoted_children(t: Outline, block: i64, parent: i64, k: int)
    requires
        t.distinct(),
        0 <= k < t.children_of(parent).len(),
        t.children_of(parent)[k] == block,
    ensures
        t.promoted(block).children_of(parent) == t.children_of(parent).take(k) + t.children_of(
            block,
        ) + t.children_of(parent).skip(k + 1),
    decreases t,
{
    let s = t.children;
    let after = t.promoted(block);
    lemma_child_below(t, parent, k);
    lemma_find_contains(t, parent);
    lemma_children_ids(t);
    lemma_promoted_ids(t, block);
    if t.id == parent {
        lemma_children_distinct(t, k, k);
        assert(t.child_ids()[k] == s[k].id);
        assert(s[k].ids()[0] == block);
        lemma_child_find(t, k, block);
        lemma_forest_edit_at(s, k, block, 0, t);
        lemma_forest_edit_single(s[k], block);
        assert(after.children =~= s.take(k) + s[k].children + s.skip(k + 1));
        assert(after.child_ids() =~= t.child_ids().take(k) + s[k].child_ids() + t.child_ids().skip(
            k + 1,
        ));
    } else {
        lemma_forest_member(s, parent);
        let c = choose|c: int| 0 <= c < s.len() && #[trigger] s[c].contains(parent);
        lemma_children_distinct(t, c, c);
        lemma_child_find(t, c, parent);
        lemma_child_below(s[c], parent, k);
        lemma_child_find(t, c, block);
        lemma_forest_edit_at(s, c, block, 0, t);
        lemma_forest_edit_single(s[c], block);
        lemma_promoted_children(s[c], block, parent, k);
        assert(after.children =~= s.take(c) + seq![s[c].promoted(block)] + s.skip(c + 1));
        assert(after.children[c] == s[c].promoted(block));
        assert(parent != block) by {
            if parent == block {
                lemma_find_distinct(t, parent);
                let pn = t.find(parent)->Some_0;
                assert(pn.find(parent) == Some(pn));
                lemma_child_below(pn, parent, k);
            }
        }
        lemma_promoted_member(s[c], block, parent);
        lemma_child_find(after, c, parent);
    }
}

} // verus!
