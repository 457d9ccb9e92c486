//! Edits of an outline: hanging a subtree in, taking one out, and removing
//! a node while keeping its children.

use vstd::prelude::*;
use crate::node::{
    forest_find, forest_ids, lemma_children_distinct, lemma_concat_contains, lemma_concat_distinct,
    lemma_find_contains, lemma_forest_find_at, lemma_forest_ids_concat, lemma_forest_ids_single,
    lemma_forest_member, lemma_view_children, views, Outline, OutlineNode,
};

verus! {

/// The position at which a child is put: `index`, or the end of the list
/// where `index` lies beyond it.
pub open spec fn clamped(index: int, len: int) -> int {
    if index > len {
        len
    } else {
        index
    }
}

/// A row of trees with every tree that starts with `id` taken out, and `id`
/// taken out of the others.
pub open spec fn forest_without(s: Seq<Outline>, id: i64) -> Seq<Outline>
    decreases s,
{
    if s.len() == 0 {
        Seq::empty()
    } else if s.last().id == id {
        forest_without(s.drop_last(), id)
    } else {
        forest_without(s.drop_last(), id).push(s.last().without(id))
    }
}

/// A row of trees in which every tree that starts with `id` gives way to its
/// children, and `id` is promoted away in the others.
pub open spec fn forest_promoted(s: Seq<Outline>, id: i64) -> Seq<Outline>
    decreases s,
{
    if s.len() == 0 {
        Seq::empty()
    } else if s.last().id == id {
        forest_promoted(s.drop_last(), id) + s.last().children
    } else {
        forest_promoted(s.drop_last(), id).push(s.last().promoted(id))
    }
}

/// A row of trees with `node` hung under `parent` wherever `parent` is.
pub open spec fn forest_with_child(s: Seq<Outline>, parent: i64, index: int, node: Outline) -> Seq<
    Outline,
>
    decreases s,
{
    if s.len() == 0 {
        Seq::empty()
    } else {
        forest_with_child(s.drop_last(), parent, index, node).push(
            s.last().with_child(parent, index, node),
        )
    }
}

impl Outline {
    /// The tree with `node` as a child of the node `parent`, at position
    /// `index` of its children or at their end where `index` is larger.
    pub open spec fn with_child(self, parent: i64, index: int, node: Outline) -> Outline
        decreases self,
    {
        if self.id == parent {
            Outline {
                id: self.id,
                children: self.children.insert(clamped(index, self.children.len() as int), node),
            }
        } else {
            Outline {
                id: self.id,
                children: forest_with_child(self.children, parent, index, node),
            }
        }
    }

    /// The tree without the subtree that starts at `id` (the top node stays).
    pub open spec fn without(self, id: i64) -> Outline
        decreases self,
    {
        Outline { id: self.id, children: forest_without(self.children, id) }
    }

    /// The tree without the node `id` (the top node stays): the children of
    /// `id` take its place among its siblings, in their order.
    pub open spec fn promoted(self, id: i64) -> Outline
        decreases self,
    {
        Outline { id: self.id, children: forest_promoted(self.children, id) }
    }

    /// Whether `inner` is the node `outer` or lies below it.
    pub open spec fn within(self, inner: i64, outer: i64) -> bool {
        match self.find(outer) {
            Some(sub) => sub.contains(inner),
            None => false,
        }
    }
}

/// Edits that name an id leave a tree without that id as it is.
pub proof fn lemma_absent(t: Outline, id: i64, index: int, node: Outline)
    requires
        !t.contains(id),
    ensures
        t.without(id) == t,
        t.promoted(id) == t,
        t.with_child(id, index, node) == t,
    decreases t, 1int,
{
    assert(t.ids()[0] == t.id);
    assert forall|x: i64| forest_ids(t.children).contains(x) implies t.contains(x) by {
        lemma_concat_contains(seq![t.id], forest_ids(t.children), x);
    }
    lemma_forest_absent(t.children, id, index, node);
}

/// The same for a row of trees.
pub proof fn lemma_forest_absent(s: Seq<Outline>, id: i64, index: int, node: Outline)
    requires
        !forest_ids(s).contains(id),
    ensures
        forest_without(s, id) == s,
        forest_promoted(s, id) == s,
        forest_with_child(s, id, index, node) == s,
    decreases s, 0int,
{
    if s.len() > 0 {
        lemma_concat_contains(forest_ids(s.drop_last()), s.last().ids(), id);
        lemma_forest_absent(s.drop_last(), id, index, node);
        lemma_absent(s.last(), id, index, node);
        assert(s.last().ids()[0] == s.last().id);
        assert(s.drop_last().push(s.last()) =~= s);
    } else {
        assert(forest_without(s, id) =~= s);
        assert(forest_promoted(s, id) =~= s);
        assert(forest_with_child(s, id, index, node) =~= s);
    }
}

/// Edits of a row of trees go tree by tree.
pub proof fn lemma_forest_edit_concat(
    a: Seq<Outline>,
    b: Seq<Outline>,
    id: i64,
    index: int,
    node: Outline,
)
    ensures
        forest_without(a + b, id) == forest_without(a, id) + forest_without(b, id),
        forest_promoted(a + b, id) == forest_promoted(a, id) + forest_promoted(b, id),
        forest_with_child(a + b, id, index, node) == forest_with_child(a, id, index, node)
            + forest_with_child(b, id, index, node),
    decreases b.len(),
{
    if b.len() == 0 {
        assert(a + b =~= a);
        assert(forest_without(a, id) + forest_without(b, id) =~= forest_without(a, id));
        assert(forest_promoted(a, id) + forest_promoted(b, id) =~= forest_promoted(a, id));
        assert(forest_with_child(a, id, index, node) + forest_with_child(b, id, index, node)
            =~= forest_with_child(a, id, index, node));
    } else {
        assert((a + b).drop_last() =~= a + b.drop_last());
        assert((a + b).last() == b.last());
        lemma_forest_edit_concat(a, b.drop_last(), id, index, node);
        let wa = forest_without(a, id);
        let wb = forest_without(b.drop_last(), id);
        let pa = forest_promoted(a, id);
        let pb = forest_promoted(b.drop_last(), id);
        let ca = forest_with_child(a, id, index, node);
        let cb = forest_with_child(b.drop_last(), id, index, node);
        if b.last().id == id {
            assert((pa + pb) + b.last().children =~= pa + (pb + b.last().children));
        } else {
            assert((wa + wb).push(b.last().without(id)) =~= wa + wb.push(b.last().without(id)));
            assert((pa + pb).push(b.last().promoted(id)) =~= pa + pb.push(b.last().promoted(id)));
        }
        assert((ca + cb).push(b.last().with_child(id, index, node)) =~= ca + cb.push(
            b.last().with_child(id, index, node),
        ));
    }
}

/// A row of trees is what stands before a tree, the tree, and what follows.
pub proof fn lemma_forest_split(s: Seq<Outline>, c: int)
    requires
        0 <= c < s.len(),
    ensures
        s == s.take(c) + seq![s[c]] + s.skip(c + 1),
        forest_ids(s) == forest_ids(s.take(c)) + s[c].ids() + forest_ids(s.skip(c + 1)),
{
    assert(s =~= s.take(c) + seq![s[c]] + s.skip(c + 1));
    lemma_forest_ids_concat(s.take(c) + seq![s[c]], s.skip(c + 1));
    lemma_forest_ids_concat(s.take(c), seq![s[c]]);
    lemma_forest_ids_single(s[c]);
}

/// In a row of trees without repeated ids, an edit that names an id changes
/// only the tree that holds the id.
pub proof fn lemma_forest_edit_at(s: Seq<Outline>, c: int, id: i64, index: int, node: Outline)
    requires
        forest_ids(s).no_duplicates(),
        0 <= c < s.len(),
        s[c].contains(id),
    ensures
        forest_without(s, id) == s.take(c) + forest_without(seq![s[c]], id) + s.skip(c + 1),
        forest_promoted(s, id) == s.take(c) + forest_promoted(seq![s[c]], id) + s.skip(c + 1),
        forest_with_child(s, id, index, node) == s.take(c) + seq![
            s[c].with_child(id, index, node),
        ] + s.skip(c + 1),
{
    lemma_forest_split(s, c);
    let a = s.take(c);
    let m = seq![s[c]];
    let b = s.skip(c + 1);
    lemma_concat_distinct(forest_ids(a) + s[c].ids(), forest_ids(b));
    lemma_concat_distinct(forest_ids(a), s[c].ids());
    lemma_concat_contains(forest_ids(a), s[c].ids(), id);
    lemma_forest_absent(a, id, index, node);
    lemma_forest_absent(b, id, index, node);
    lemma_forest_edit_concat(a + m, b, id, index, node);
    lemma_forest_edit_concat(a, m, id, index, node);
    assert(m.drop_last() =~= Seq::<Outline>::empty());
    assert(forest_with_child(m, id, index, node) =~= seq![s[c].with_child(id, index, node)]) by {
        reveal_with_fuel(forest_with_child, 2);
    }
}

/// How a row that holds one tree is edited.
pub proof fn lemma_forest_edit_single(t: Outline, id: i64)
    ensures
        forest_without(seq![t], id) == if t.id == id {
            Seq::<Outline>::empty()
        } else {
            seq![t.without(id)]
        },
        forest_promoted(seq![t], id) == if t.id == id {
            t.children
        } else {
            seq![t.promoted(id)]
        },
{
    reveal_with_fuel(forest_without, 2);
    reveal_with_fuel(forest_promoted, 2);
    assert(seq![t].drop_last() =~= Seq::<Outline>::empty());
    if t.id == id {
        assert(forest_without(seq![t], id) =~= Seq::<Outline>::empty());
        assert(forest_promoted(seq![t], id) =~= t.children);
    } else {
        assert(forest_without(seq![t], id) =~= seq![t.without(id)]);
        assert(forest_promoted(seq![t], id) =~= seq![t.promoted(id)]);
    }
}

/// The children of a tree without repeated ids repeat no id among them.
pub proof fn lemma_children_ids(t: Outline)
    requires
        t.distinct(),
    ensures
        forest_ids(t.children).no_duplicates(),
        !forest_ids(t.children).contains(t.id),
        forall|x: i64| t.contains(x) <==> x == t.id || forest_ids(t.children).contains(x),
{
    lemma_concat_distinct(seq![t.id], forest_ids(t.children));
    assert(seq![t.id][0] == t.id);
    assert forall|x: i64| t.contains(x) <==> x == t.id || forest_ids(t.children).contains(x) by {
        lemma_concat_contains(seq![t.id], forest_ids(t.children), x);
        if seq![t.id].contains(x) {
            let k = choose|k: int| 0 <= k < seq![t.id].len() && seq![t.id][k] == x;
        }
    }
}

impl OutlineNode {
    /// The node with the given id, if the tree holds one.
    pub fn find_node(&self, id: i64) -> (found: Option<&OutlineNode>)
        ensures
            match found {
                Some(n) => self@.find(id) == Some(n@),
                None => self@.find(id) is None,
            },
            found is Some <==> self@.contains(id),
        decreases self,
    {
        proof {
            lemma_view_children(*self);
            lemma_find_contains(self@, id);
        }
        if self.id == id {
            return Some(self);
        }
        let mut c: usize = 0;
        proof {
            assert(views(self.children@).take(0) =~= Seq::<Outline>::empty());
        }
        while c < self.children.len()
            invariant
                c <= self.children@.len(),
                self.id != id,
                forest_find(views(self.children@).take(c as int), id) is None,
            decreases self.children@.len() - c,
        {
            let found = self.children[c].find_node(id);
            proof {
                let all = views(self.children@);
                assert(all.take(c + 1).drop_last() =~= all.take(c as int));
                assert(all.take(c + 1).last() == self.children@[c as int]@);
                assert(forest_find(all.take(c + 1), id) == self.children@[c as int]@.find(id));
            }
            if found.is_some() {
                proof {
                    let all = views(self.children@);
                    lemma_forest_find_prefix(all, c + 1, id);
                    lemma_view_children(*self);
                    lemma_find_contains(self@, id);
                    assert(self@.find(id) == forest_find(all, id));
                }
                return found;
            }
            c = c + 1;
        }
        proof {
            assert(views(self.children@).take(c as int) =~= views(self.children@));
        }
        None
    }

    /// Whether the tree holds a node with this id.
    pub fn contains_id(&self, id: i64) -> (held: bool)
        ensures
            held == self@.contains(id),
    {
        self.find_node(id).is_some()
    }

    /// Hangs `node` under the node `parent`, at position `index` of its
    /// children or at their end. Hands the node back where the tree has no
    /// node `parent`.
    pub fn insert_under(&mut self, parent: i64, index: usize, node: OutlineNode) -> (rest: Option<
        OutlineNode,
    >)
        requires
            old(self)@.distinct(),
        ensures
            match rest {
                None => old(self)@.contains(parent) && final(self)@ == old(self)@.with_child(
                    parent,
                    index as int,
                    node@,
                ),
                Some(n) => !old(self)@.contains(parent) && n == node && final(self)@ == old(self)@,
            },
            final(self).id == old(self).id,
        decreases old(self)@.ids().len(),
    {
        proof {
            lemma_view_children(*self);
            lemma_children_ids(self@);
        }
        if self.id == parent {
            let at = if index > self.children.len() {
                self.children.len()
            } else {
                index
            };
            proof {
                assert(self@.ids()[0] == parent);
            }
            let ghost before = self.children@;
            self.children.insert(at, node);
            proof {
                lemma_view_children(*self);
                assert(views(self.children@) =~= views(before).insert(at as int, node@));
            }
            return None;
        }
        let mut cur = node;
        let mut c: usize = 0;
        let n = self.children.len();
        while c < n
            invariant
                c <= n,
                n == self.children@.len(),
                views(self.children@) == views(old(self).children@),
                self.id == old(self).id,
                self.id != parent,
                cur == node,
                old(self)@.distinct(),
                forall|j: int|
                    0 <= j < c ==> !(#[trigger] views(self.children@)[j]).contains(parent),
            decreases n - c,
        {
            let ghost all = views(old(self).children@);
            proof {
                lemma_view_children(*old(self));
                lemma_children_ids(old(self)@);
                lemma_children_distinct(old(self)@, c as int, c as int);
                assert(all[c as int] == self.children@[c as int]@);
                lemma_forest_split(all, c as int);
                assert(all[c as int].ids().len() < old(self)@.ids().len());
            }
            let child = &mut self.children[c];
            match child.insert_under(parent, index, cur) {
                None => {
                    proof {
                        lemma_view_children(*self);
                        assert(views(self.children@) =~= all.update(
                            c as int,
                            all[c as int].with_child(parent, index as int, node@),
                        ));
                        lemma_forest_edit_at(all, c as int, parent, index as int, node@);
                        assert(views(self.children@) =~= all.take(c as int) + seq![
                            all[c as int].with_child(parent, index as int, node@),
                        ] + all.skip(c + 1));
                        lemma_forest_member(all, parent);
                    }
                    return None;
                },
                Some(back) => {
                    cur = back;
                    proof {
                        assert(views(self.children@) =~= all);
                    }
                },
            }
            c = c + 1;
        }
        proof {
            lemma_view_children(*self);
            let all = views(old(self).children@);
            lemma_forest_member(all, parent);
            if forest_ids(all).contains(parent) {
                let j = choose|j: int| 0 <= j < all.len() && #[trigger] all[j].contains(parent);
                assert(views(self.children@)[j].contains(parent));
            }
            assert(self@ == old(self)@);
        }
        Some(cur)
    }

    /// Takes the subtree that starts at `id` out of the tree and returns it.
    /// The top node itself cannot be taken out.
    pub fn detach(&mut self, id: i64) -> (out: Option<OutlineNode>)
        requires
            old(self)@.distinct(),
            id != old(self).id,
        ensures
            match out {
                Some(n) => old(self)@.find(id) == Some(n@) && final(self)@ == old(self)@.without(
                    id,
                ),
                None => !old(self)@.contains(id) && final(self)@ == old(self)@,
            },
            final(self).id == old(self).id,
        decreases old(self)@.ids().len(),
    {
        proof {
            lemma_view_children(*self);
            lemma_children_ids(self@);
        }
        let mut c: usize = 0;
        let n = self.children.len();
        while c < n
            invariant
                c <= n,
                n == self.children@.len(),
                views(self.children@) == views(old(self).children@),
                self.id == old(self).id,
                self.id != id,
                old(self)@.distinct(),
                forall|j: int| 0 <= j < c ==> !(#[trigger] views(self.children@)[j]).contains(id),
            decreases n - c,
        {
            let ghost all = views(old(self).children@);
            proof {
                lemma_view_children(*old(self));
                lemma_children_ids(old(self)@);
                lemma_children_distinct(old(self)@, c as int, c as int);
                assert(all[c as int] == self.children@[c as int]@);
                lemma_forest_split(all, c as int);
                assert(all[c as int].ids().len() < old(self)@.ids().len());
                lemma_view_children(self.children@[c as int]);
            }
            if self.children[c].id == id {
                let taken = self.children.remove(c);
                proof {
                    lemma_view_children(*self);
                    assert(all[c as int].ids()[0] == id);
                    lemma_forest_edit_at(all, c as int, id, 0, all[c as int]);
                    lemma_forest_edit_single(all[c as int], id);
                    lemma_forest_find_at(all, c as int, id);
                    assert(views(self.children@) =~= all.take(c as int) + Seq::<Outline>::empty()
                        + all.skip(c + 1));
                }
                return Some(taken);
            }
            let child = &mut self.children[c];
            match child.detach(id) {
                Some(taken) => {
                    proof {
                        lemma_view_children(*self);
                        assert(views(self.children@) =~= all.update(
                            c as int,
                            all[c as int].without(id),
                        ));
                        lemma_find_contains(all[c as int], id);
                        lemma_forest_edit_at(all, c as int, id, 0, all[c as int]);
                        lemma_forest_edit_single(all[c as int], id);
                        lemma_forest_find_at(all, c as int, id);
                        assert(views(self.children@) =~= all.take(c as int) + seq![
                            all[c as int].without(id),
                        ] + all.skip(c + 1));
                    }
                    return Some(taken);
                },
                None => {
                    proof {
                        assert(views(self.children@) =~= all);
                    }
                },
            }
            c = c + 1;
        }
        proof {
            lemma_view_children(*self);
            let all = views(old(self).children@);
            lemma_forest_member(all, id);
            if forest_ids(all).contains(id) {
                let j = choose|j: int| 0 <= j < all.len() && #[trigger] all[j].contains(id);
                assert(views(self.children@)[j].contains(id));
            }
            assert(self@ == old(self)@);
        }
        None
    }

    /// Removes the node `id` and puts its children in its place, in their
    /// order. The top node itself cannot be removed.
    pub fn promote(&mut self, id: i64) -> (done: bool)
        requires
            old(self)@.distinct(),
            id != old(self).id,
        ensures
            done == old(self)@.contains(id),
            done ==> final(self)@ == old(self)@.promoted(id),
            !done ==> final(self)@ == old(self)@,
            final(self).id == old(self).id,
        decreases old(self)@.ids().len(),
    {
        proof {
            lemma_view_children(*self);
            lemma_children_ids(self@);
        }
        let mut c: usize = 0;
        let n = self.children.len();
        while c < n
            invariant
                c <= n,
                n == self.children@.len(),
                views(self.children@) == views(old(self).children@),
                self.id == old(self).id,
                self.id != id,
                old(self)@.distinct(),
                forall|j: int| 0 <= j < c ==> !(#[trigger] views(self.children@)[j]).contains(id),
            decreases n - c,
        {
            let ghost all = views(old(self).children@);
            proof {
                lemma_view_children(*old(self));
                lemma_children_ids(old(self)@);
                lemma_children_distinct(old(self)@, c as int, c as int);
                assert(all[c as int] == self.children@[c as int]@);
                lemma_forest_split(all, c as int);
                assert(all[c as int].ids().len() < old(self)@.ids().len());
                lemma_view_children(self.children@[c as int]);
                lemma_forest_member(all, id);
            }
            if self.children[c].id == id {
                let gone = self.children.remove(c);
                let mut tail = self.children.split_off(c);
                let OutlineNode { id: _, children: mut kids } = gone;
                let ghost kept = self.children@;
                let ghost moved = kids@;
                let ghost rest = tail@;
                self.children.append(&mut kids);
                self.children.append(&mut tail);
                proof {
                    lemma_view_children(*self);
                    assert(all[c as int].ids()[0] == id);
                    lemma_forest_edit_at(all, c as int, id, 0, all[c as int]);
                    lemma_forest_edit_single(all[c as int], id);
                    assert(self.children@ =~= kept + moved + rest);
                    assert(views(self.children@) =~= all.take(c as int) + all[c as int].children
                        + all.skip(c + 1));
                }
                return true;
            }
            let child = &mut self.children[c];
            if child.promote(id) {
                proof {
                    lemma_view_children(*self);
                    assert(views(self.children@) =~= all.update(
                        c as int,
                        all[c as int].promoted(id),
                    ));
                    lemma_forest_edit_at(all, c as int, id, 0, all[c as int]);
                    lemma_forest_edit_single(all[c as int], id);
                    assert(views(self.children@) =~= all.take(c as int) + seq![
                        all[c as int].promoted(id),
                    ] + all.skip(c + 1));
                }
                return true;
            }
            proof {
                assert(views(self.children@) =~= all);
            }
            c = c + 1;
        }
        proof {
            lemma_view_children(*self);
            let all = views(old(self).children@);
            lemma_forest_member(all, id);
            if forest_ids(all).contains(id) {
                let j = choose|j: int| 0 <= j < all.len() && #[trigger] all[j].contains(id);
                assert(views(self.children@)[j].contains(id));
            }
            assert(self@ == old(self)@);
        }
        false
    }
}

/// What is found in the front of a row of trees is found in the row.
pub proof fn lemma_forest_find_prefix(s: Seq<Outline>, k: int, id: i64)
    requires
        0 <= k <= s.len(),
        forest_find(s.take(k), id) is Some,
    ensures
        forest_find(s, id) == forest_find(s.take(k), id),
    decreases s.len() - k,
{
    if k < s.len() {
        assert(s.take(k + 1).drop_last() =~= s.take(k));
        lemma_forest_find_prefix(s, k + 1, id);
    } else {
        assert(s.take(k) =~= s);
    }
}

} // verus!
