//! The nodes of an outline tree and their mathematical model.

use vstd::prelude::*;

verus! {

/// The shape of an outline tree: a block id and the shapes below it, in order.
pub ghost struct Outline {
    pub id: i64,
    pub children: Seq<Outline>,
}

/// The ids of a row of trees in depth-first preorder, tree after tree.
pub open spec fn forest_ids(s: Seq<Outline>) -> Seq<i64>
    decreases s,
{
    if s.len() == 0 {
        Seq::empty()
    } else {
        forest_ids(s.drop_last()) + s.last().ids()
    }
}

/// The subtree with the given id in a row of trees, the leftmost if several
/// carry it.
pub open spec fn forest_find(s: Seq<Outline>, id: i64) -> Option<Outline>
    decreases s,
{
    if s.len() == 0 {
        None
    } else {
        match forest_find(s.drop_last(), id) {
            Some(n) => Some(n),
            None => s.last().find(id),
        }
    }
}

impl Outline {
    /// The ids of the tree in depth-first preorder: a node before its
    /// children, the children from left to right.
    pub open spec fn ids(self) -> Seq<i64>
        decreases self,
    {
        seq![self.id] + forest_ids(self.children)
    }

    /// The ids of the node's children, in order.
    pub open spec fn child_ids(self) -> Seq<i64> {
        Seq::new(self.children.len(), |k: int| self.children[k].id)
    }

    /// The subtree that starts at the node with the given id.
    pub open spec fn find(self, id: i64) -> Option<Outline>
        decreases self,
    {
        if self.id == id {
            Some(self)
        } else {
            forest_find(self.children, id)
        }
    }

    /// Whether a node with this id is in the tree.
    pub open spec fn contains(self, id: i64) -> bool {
        self.ids().contains(id)
    }

    /// The ordered child ids of the node with id `parent`; empty where the
    /// tree has no such node.
    pub open spec fn children_of(self, parent: i64) -> Seq<i64> {
        match self.find(parent) {
            Some(n) => n.child_ids(),
            None => Seq::empty(),
        }
    }

    /// No id occurs twice in the tree.
    pub open spec fn distinct(self) -> bool {
        self.ids().no_duplicates()
    }
}

/// A node of an outline tree. It owns its children.
#[derive(Debug, PartialEq, Eq)]
pub struct OutlineNode {
    pub id: i64,
    pub children: Vec<OutlineNode>,
}

/// The shapes of a row of nodes.
pub open spec fn views(s: Seq<OutlineNode>) -> Seq<Outline> {
    Seq::new(s.len(), |k: int| s[k]@)
}

impl OutlineNode {
    /// The shape of the tree that starts at this node.
    pub open spec fn shape(self) -> Outline
        decreases self,
    {
        Outline {
            id: self.id,
            children: Seq::new(
                self.children@.len(),
                |k: int|
                    if 0 <= k < self.children@.len() {
                        self.children@[k].shape()
                    } else {
                        arbitrary()
                    },
            ),
        }
    }
}

impl View for OutlineNode {
    type V = Outline;

    open spec fn view(&self) -> Outline {
        self.shape()
    }
}

/// A node's shape holds the shapes of its children.
pub proof fn lemma_view_children(n: OutlineNode)
    ensures
        n@.id == n.id,
        n@.children == views(n.children@),
{
    assert(n@.children.len() == n.children@.len());
    assert forall|k: int| 0 <= k < n.children@.len() implies n@.children[k] == views(
        n.children@,
    )[k] by {}
    assert(n@.children =~= views(n.children@));
}

/// The ids of a row of trees are those of its parts, in order.
pub proof fn lemma_forest_ids_concat(a: Seq<Outline>, b: Seq<Outline>)
    ensures
        forest_ids(a + b) == forest_ids(a) + forest_ids(b),
    decreases b.len(),
{
    if b.len() == 0 {
        assert(a + b =~= a);
    } else {
        assert((a + b).drop_last() =~= a + b.drop_last());
        assert((a + b).last() == b.last());
        lemma_forest_ids_concat(a, b.drop_last());
        assert(forest_ids(a) + forest_ids(b.drop_last()) + b.last().ids() =~= forest_ids(a) + (
        forest_ids(b.drop_last()) + b.last().ids()));
    }
}

/// The ids of a row that holds one tree are the ids of that tree.
pub proof fn lemma_forest_ids_single(t: Outline)
    ensures
        forest_ids(seq![t]) == t.ids(),
{
    reveal_with_fuel(forest_ids, 2);
    assert(seq![t].drop_last() =~= Seq::<Outline>::empty());
    assert(forest_ids(seq![t]) =~= t.ids());
}

/// A row of trees grown by one tree lists the ids of that tree last.
pub proof fn lemma_forest_ids_push(s: Seq<Outline>, t: Outline)
    ensures
        forest_ids(s.push(t)) == forest_ids(s) + t.ids(),
        forall|id: i64|
            forest_find(s.push(t), id) == match forest_find(s, id) {
                Some(n) => Some(n),
                None => t.find(id),
            },
{
    assert(s.push(t).drop_last() =~= s);
    assert(s.push(t).last() == t);
}

/// A tree holds a node with an id exactly where its preorder lists the id,
/// and the subtree found carries that id.
pub proof fn lemma_find_contains(t: Outline, id: i64)
    ensures
        t.find(id) is Some <==> t.contains(id),
        t.find(id) is Some ==> t.find(id)->Some_0.id == id,
    decreases t, 1int,
{
    lemma_forest_find_contains(t.children, id);
    if t.id == id {
        assert(t.ids()[0] == id);
    } else {
        if t.contains(id) {
            let k = choose|k: int| 0 <= k < t.ids().len() && t.ids()[k] == id;
            assert(k > 0);
            assert(forest_ids(t.children)[k - 1] == id);
        }
        if forest_ids(t.children).contains(id) {
            let k = choose|k: int|
                0 <= k < forest_ids(t.children).len() && forest_ids(t.children)[k] == id;
            assert(t.ids()[k + 1] == id);
        }
    }
}

/// The same for a row of trees.
pub proof fn lemma_forest_find_contains(s: Seq<Outline>, id: i64)
    ensures
        forest_find(s, id) is Some <==> forest_ids(s).contains(id),
        forest_find(s, id) is Some ==> forest_find(s, id)->Some_0.id == id,
    decreases s, 0int,
{
    if s.len() > 0 {
        lemma_forest_find_contains(s.drop_last(), id);
        lemma_find_contains(s.last(), id);
        let a = forest_ids(s.drop_last());
        let b = s.last().ids();
        if a.contains(id) {
            let k = choose|k: int| 0 <= k < a.len() && a[k] == id;
            assert((a + b)[k] == id);
        }
        if b.contains(id) {
            let k = choose|k: int| 0 <= k < b.len() && b[k] == id;
            assert((a + b)[a.len() + k] == id);
        }
        if (a + b).contains(id) {
            let k = choose|k: int| 0 <= k < (a + b).len() && (a + b)[k] == id;
            if k < a.len() {
                assert(a[k] == id);
            } else {
                assert(b[k - a.len()] == id);
            }
        }
    }
}

/// An id is in a concatenation where it is in one of the parts.
pub proof fn lemma_concat_contains(a: Seq<i64>, b: Seq<i64>, x: i64)
    ensures
        (a + b).contains(x) <==> a.contains(x) || b.contains(x),
{
    if a.contains(x) {
        let k = choose|k: int| 0 <= k < a.len() && a[k] == x;
        assert((a + b)[k] == x);
    }
    if b.contains(x) {
        let k = choose|k: int| 0 <= k < b.len() && b[k] == x;
        assert((a + b)[a.len() + k] == x);
    }
    if (a + b).contains(x) {
        let k = choose|k: int| 0 <= k < (a + b).len() && (a + b)[k] == x;
        if k < a.len() {
            assert(a[k] == x);
        } else {
            assert(b[k - a.len()] == x);
        }
    }
}

/// The parts of a concatenation without repeats have no repeats and share
/// no id.
pub proof fn lemma_concat_distinct(a: Seq<i64>, b: Seq<i64>)
    requires
        (a + b).no_duplicates(),
    ensures
        a.no_duplicates(),
        b.no_duplicates(),
        forall|x: i64| a.contains(x) ==> !b.contains(x),
{
    let ab = a + b;
    assert forall|i: int, j: int| 0 <= i < a.len() && 0 <= j < a.len() && i != j implies a[i]
        != a[j] by {
        assert(ab[i] == a[i] && ab[j] == a[j]);
    }
    assert forall|i: int, j: int| 0 <= i < b.len() && 0 <= j < b.len() && i != j implies b[i]
        != b[j] by {
        assert(ab[a.len() + i] == b[i] && ab[a.len() + j] == b[j]);
    }
    assert forall|x: i64| a.contains(x) implies !b.contains(x) by {
        if b.contains(x) {
            let i = choose|i: int| 0 <= i < a.len() && a[i] == x;
            let j = choose|j: int| 0 <= j < b.len() && b[j] == x;
            assert(ab[i] == x && ab[a.len() + j] == x);
        }
    }
}

/// An id is in a row of trees where it is in one of the trees.
pub proof fn lemma_forest_member(s: Seq<Outline>, x: i64)
    ensures
        forest_ids(s).contains(x) <==> exists|c: int|
            0 <= c < s.len() && #[trigger] s[c].contains(x),
    decreases s.len(),
{
    if s.len() > 0 {
        let front = s.drop_last();
        lemma_forest_member(front, x);
        lemma_concat_contains(forest_ids(front), s.last().ids(), x);
        if forest_ids(front).contains(x) {
            let c = choose|c: int| 0 <= c < front.len() && #[trigger] front[c].contains(x);
            assert(s[c].contains(x));
        }
        if s.last().contains(x) {
            assert(s[s.len() - 1].contains(x));
        }
        if exists|c: int| 0 <= c < s.len() && #[trigger] s[c].contains(x) {
            let c = choose|c: int| 0 <= c < s.len() && #[trigger] s[c].contains(x);
            if c < s.len() - 1 {
                assert(front[c].contains(x));
            }
        }
    }
}

/// In a row of trees without repeated ids, no tree repeats an id and no two
/// trees share one.
pub proof fn lemma_forest_distinct(s: Seq<Outline>, c: int, d: int)
    requires
        forest_ids(s).no_duplicates(),
        0 <= c < s.len(),
        0 <= d < s.len(),
    ensures
        s[c].distinct(),
        c != d ==> forall|x: i64| s[c].contains(x) ==> !s[d].contains(x),
    decreases s.len(),
{
    let front = s.drop_last();
    lemma_concat_distinct(forest_ids(front), s.last().ids());
    if c < s.len() - 1 && d < s.len() - 1 {
        lemma_forest_distinct(front, c, d);
    } else if c < s.len() - 1 {
        lemma_forest_distinct(front, c, c);
        assert forall|x: i64| s[c].contains(x) implies !s[d].contains(x) by {
            lemma_forest_member(front, x);
            assert(front[c].contains(x));
        }
    } else if d < s.len() - 1 {
        assert forall|x: i64| s[c].contains(x) implies !s[d].contains(x) by {
            lemma_forest_member(front, x);
            if s[d].contains(x) {
                assert(front[d].contains(x));
            }
        }
    }
}

/// In a row of trees without repeated ids, an id is found in the tree that
/// holds it.
pub proof fn lemma_forest_find_at(s: Seq<Outline>, c: int, p: i64)
    requires
        forest_ids(s).no_duplicates(),
        0 <= c < s.len(),
        s[c].contains(p),
    ensures
        forest_find(s, p) == s[c].find(p),
    decreases s.len(),
{
    let front = s.drop_last();
    lemma_concat_distinct(forest_ids(front), s.last().ids());
    lemma_forest_find_contains(front, p);
    if c < s.len() - 1 {
        lemma_forest_find_at(front, c, p);
        lemma_find_contains(s[c], p);
    } else {
    }
}

/// The children of a tree without repeated ids have no repeated ids, do not
/// hold the tree's own id, and share no id.
pub proof fn lemma_children_distinct(t: Outline, c: int, d: int)
    requires
        t.distinct(),
        0 <= c < t.children.len(),
        0 <= d < t.children.len(),
    ensures
        t.children[c].distinct(),
        !t.children[c].contains(t.id),
        forall|x: i64| t.children[c].contains(x) ==> t.contains(x),
        c != d ==> forall|x: i64| t.children[c].contains(x) ==> !t.children[d].contains(x),
{
    lemma_concat_distinct(seq![t.id], forest_ids(t.children));
    lemma_forest_distinct(t.children, c, d);
    assert(seq![t.id][0] == t.id);
    lemma_forest_member(t.children, t.id);
    assert forall|x: i64| t.children[c].contains(x) implies t.contains(x) by {
        lemma_forest_member(t.children, x);
        lemma_concat_contains(seq![t.id], forest_ids(t.children), x);
    }
}

/// In a tree without repeated ids, what a child holds is found in that child.
pub proof fn lemma_child_find(t: Outline, c: int, p: i64)
    requires
        t.distinct(),
        0 <= c < t.children.len(),
        t.children[c].contains(p),
    ensures
        t.find(p) == t.children[c].find(p),
        t.children_of(p) == t.children[c].children_of(p),
{
    lemma_children_distinct(t, c, c);
    lemma_concat_distinct(seq![t.id], forest_ids(t.children));
    lemma_forest_find_at(t.children, c, p);
}

} // verus!
