//! Rebuilding the ordered tree from flat links.

use vstd::prelude::*;
use vstd::std_specs::hash::*;
use crate::assemble::{assemble, grown, list_of, listed, separate, taken};
use crate::chains::{
    chain_groups, index_links, indexes, mark_followers, recorded, second_head_parent, single_heads,
};
use crate::errors::StructuralIntegrityError;
use crate::links::{
    climbs, dangling, has_id, ids_at, is_walk, lemma_climbs_on, lemma_path_key, lemma_position,
    lemma_walk_distinct, on_chain, position, rooted, second_head, valid, well_formed,
};
use crate::node::{
    forest_ids, lemma_child_find, lemma_children_distinct, lemma_find_contains,
    lemma_forest_ids_single, lemma_forest_member, Outline, OutlineNode,
};
use crate::records::{BlockLink, ROOT_ID};

verus! {

broadcast use vstd::std_specs::hash::group_hash_axioms;

/// The ids `order` are the children of `parent` in sibling order: the ids
/// along the sibling walk that starts under `parent`, or none where no link
/// hangs under `parent`.
pub open spec fn sibling_order(links: Seq<BlockLink>, parent: i64, order: Seq<i64>) -> bool {
    if order.len() == 0 {
        forall|i: int| 0 <= i < links.len() ==> #[trigger] links[i].spec_key() != parent
    } else {
        exists|w: Seq<int>|
            #[trigger] is_walk(links, w) && links[w[0]].spec_key() == parent && order == ids_at(
                links,
                w,
            )
    }
}

/// The tree is the one that the links describe: it hangs under the page
/// root, holds the root and every link's id once, and the children of each
/// node stand in sibling order.
pub open spec fn describes(t: Outline, links: Seq<BlockLink>) -> bool {
    &&& t.id == ROOT_ID
    &&& t.distinct()
    &&& forall|id: i64| #[trigger] t.contains(id) <==> id == ROOT_ID || has_id(links, id)
    &&& forall|p: i64| sibling_order(links, p, #[trigger] t.children_of(p))
}

/// The first link that is a second head.
pub open spec fn first_second_head(links: Seq<BlockLink>, i: int) -> bool {
    &&& 0 <= i < links.len()
    &&& second_head(links, i)
    &&& forall|j: int| 0 <= j < i ==> !second_head(links, j)
}

/// The first link that lies on no sibling walk.
pub open spec fn first_off_chain(links: Seq<BlockLink>, i: int) -> bool {
    &&& 0 <= i < links.len()
    &&& !on_chain(links, i)
    &&& forall|j: int| 0 <= j < i ==> on_chain(links, j)
}

/// The first link whose parent is missing.
pub open spec fn first_dangling(links: Seq<BlockLink>, i: int) -> bool {
    &&& 0 <= i < links.len()
    &&& dangling(links, i)
    &&& forall|j: int| 0 <= j < i ==> !dangling(links, j)
}

/// The first link that is not below the page root.
pub open spec fn first_unrooted(links: Seq<BlockLink>, i: int) -> bool {
    &&& 0 <= i < links.len()
    &&& !rooted(links, i)
    &&& forall|j: int| 0 <= j < i ==> rooted(links, j)
}

/// The error that rebuilding reports for links that describe no tree. A
/// second head is reported before a broken sibling chain, that before a
/// missing parent, and that before a block cut off from the page root; of
/// several links with the same fault the first in the sequence counts.
pub open spec fn reports(links: Seq<BlockLink>, e: StructuralIntegrityError) -> bool {
    match e {
        StructuralIntegrityError::MultipleHeads(parent) => exists|i: int|
            #[trigger] first_second_head(links, i) && links[i].spec_key() == parent,
        StructuralIntegrityError::CycleDetected(parent) => {
            &&& forall|i: int| 0 <= i < links.len() ==> !second_head(links, i)
            &&& {
                ||| exists|i: int|
                    #[trigger] first_off_chain(links, i) && links[i].spec_key() == parent
                ||| {
                    &&& forall|i: int| 0 <= i < links.len() ==> on_chain(links, i)
                    &&& forall|i: int| 0 <= i < links.len() ==> !dangling(links, i)
                    &&& exists|i: int|
                        #[trigger] first_unrooted(links, i) && links[i].spec_key() == parent
                }
            }
        },
        StructuralIntegrityError::DanglingParent(block) => {
            &&& forall|i: int| 0 <= i < links.len() ==> !second_head(links, i)
            &&& forall|i: int| 0 <= i < links.len() ==> on_chain(links, i)
            &&& exists|i: int| #[trigger] first_dangling(links, i) && links[i].id == block
        },
    }
}

/// At most one fault is reported for given links, and none for valid
/// links.
pub proof fn lemma_one_report(
    links: Seq<BlockLink>,
    ea: StructuralIntegrityError,
    eb: StructuralIntegrityError,
)
    requires
        reports(links, ea),
        reports(links, eb),
    ensures
        ea == eb,
        !valid(links),
{
    match ea {
        StructuralIntegrityError::MultipleHeads(pa) => {
            let i = choose|i: int| #[trigger]
                first_second_head(links, i) && links[i].spec_key() == pa;
            if let StructuralIntegrityError::MultipleHeads(pb) = eb {
                let j = choose|j: int| #[trigger]
                    first_second_head(links, j) && links[j].spec_key() == pb;
                assert(i == j);
            }
        },
        StructuralIntegrityError::DanglingParent(ba) => {
            let i = choose|i: int| #[trigger] first_dangling(links, i) && links[i].id == ba;
            match eb {
                StructuralIntegrityError::MultipleHeads(pb) => {
                    let j = choose|j: int| #[trigger]
                        first_second_head(links, j) && links[j].spec_key() == pb;
                },
                StructuralIntegrityError::DanglingParent(bb) => {
                    let j = choose|j: int| #[trigger]
                        first_dangling(links, j) && links[j].id == bb;
                    assert(i == j);
                },
                StructuralIntegrityError::CycleDetected(pb) => {
                    if exists|j: int| #[trigger]
                        first_off_chain(links, j) && links[j].spec_key() == pb {
                        let j = choose|j: int| #[trigger]
                            first_off_chain(links, j) && links[j].spec_key() == pb;
                    }
                },
            }
        },
        StructuralIntegrityError::CycleDetected(pa) => {
            match eb {
                StructuralIntegrityError::MultipleHeads(pb) => {
                    let j = choose|j: int| #[trigger]
                        first_second_head(links, j) && links[j].spec_key() == pb;
                },
                StructuralIntegrityError::DanglingParent(bb) => {
                    let j = choose|j: int| #[trigger]
                        first_dangling(links, j) && links[j].id == bb;
                    if exists|i: int| #[trigger]
                        first_off_chain(links, i) && links[i].spec_key() == pa {
                        let i = choose|i: int| #[trigger]
                            first_off_chain(links, i) && links[i].spec_key() == pa;
                    }
                },
                StructuralIntegrityError::CycleDetected(pb) => {
                    if exists|i: int| #[trigger]
                        first_off_chain(links, i) && links[i].spec_key() == pa {
                        let i = choose|i: int| #[trigger]
                            first_off_chain(links, i) && links[i].spec_key() == pa;
                        if exists|j: int| #[trigger]
                            first_off_chain(links, j) && links[j].spec_key() == pb {
                            let j = choose|j: int| #[trigger]
                                first_off_chain(links, j) && links[j].spec_key() == pb;
                            assert(i == j);
                        }
                    } else {
                        let i = choose|i: int| #[trigger]
                            first_unrooted(links, i) && links[i].spec_key() == pa;
                        if exists|j: int| #[trigger]
                            first_off_chain(links, j) && links[j].spec_key() == pb {
                            let j = choose|j: int| #[trigger]
                                first_off_chain(links, j) && links[j].spec_key() == pb;
                        } else {
                            let j = choose|j: int| #[trigger]
                                first_unrooted(links, j) && links[j].spec_key() == pb;
                            assert(i == j);
                        }
                    }
                },
            }
            if exists|i: int| #[trigger] first_off_chain(links, i) && links[i].spec_key() == pa {
                let i = choose|i: int| #[trigger]
                    first_off_chain(links, i) && links[i].spec_key() == pa;
            } else {
                let i = choose|i: int| #[trigger]
                    first_unrooted(links, i) && links[i].spec_key() == pa;
            }
        },
    }
}

/// The child lists are those of the links: what a list holds hangs under
/// its parent, every link is in the list of its parent, and every list is
/// in sibling order.
pub open spec fn groups_match(links: Seq<BlockLink>, groups: Map<i64, Vec<i64>>) -> bool {
    &&& forall|k: i64, x: i64|
        groups.contains_key(k) && #[trigger] groups[k]@.contains(x) ==> has_id(links, x)
            && links[position(links, x)].spec_key() == k
    &&& forall|i: int|
        0 <= i < links.len() ==> groups.contains_key(#[trigger] links[i].spec_key())
            && groups[links[i].spec_key()]@.contains(links[i].id)
    &&& forall|k: i64| #[trigger]
        groups.contains_key(k) ==> groups[k]@.len() > 0 && sibling_order(links, k, groups[k]@)
}

/// Recorded sibling walks that cover every link give separate child lists
/// that match the links.
proof fn lemma_groups_facts(
    links: Seq<BlockLink>,
    groups: Map<i64, Vec<i64>>,
    chained: Seq<bool>,
    walks: Map<i64, Seq<int>>,
)
    requires
        well_formed(links),
        recorded(links, groups, chained, walks, links.len() as int),
        forall|i: int| 0 <= i < links.len() ==> chained[i],
    ensures
        separate(groups),
        !listed(groups, ROOT_ID),
        groups_match(links, groups),
{
    reveal(recorded);
    assert forall|k: i64, x: i64|
        groups.contains_key(k) && #[trigger] groups[k]@.contains(x) implies has_id(links, x)
        && links[position(links, x)].spec_key() == k && x != ROOT_ID by {
        let w = walks[k];
        let j = choose|j: int| 0 <= j < groups[k]@.len() && groups[k]@[j] == x;
        assert(x == links[w[j]].id);
        lemma_position(links, w[j]);
        lemma_path_key(links, w, j);
    }
    assert forall|k: i64| groups.contains_key(k) implies #[trigger] groups[k]@.no_duplicates() by {
        let w = walks[k];
        assert forall|a: int, b: int|
            0 <= a < groups[k]@.len() && 0 <= b < groups[k]@.len() && a != b implies groups[k]@[a]
            != groups[k]@[b] by {
            if a < b {
                lemma_walk_distinct(links, w, a, b);
            } else {
                lemma_walk_distinct(links, w, b, a);
            }
            lemma_position(links, w[a]);
            lemma_position(links, w[b]);
        }
    }
    assert forall|i: int| 0 <= i < links.len() implies groups.contains_key(
        #[trigger] links[i].spec_key(),
    ) && groups[links[i].spec_key()]@.contains(links[i].id) by {
        assert(chained[i]);
        let w = walks[links[i].spec_key()];
        let j = choose|j: int| 0 <= j < w.len() && w[j] == i;
        assert(ids_at(links, w)[j] == links[i].id);
    }
    assert forall|k: i64| #[trigger] groups.contains_key(k) implies groups[k]@.len() > 0
        && sibling_order(links, k, groups[k]@) by {
        assert(is_walk(links, walks[k]));
    }
}

/// Every child in the tree is a link that hangs under the node above it.
pub open spec fn parents_agree(t: Outline, links: Seq<BlockLink>) -> bool {
    forall|p: i64, x: i64| #[trigger]
        t.children_of(p).contains(x) ==> has_id(links, x) && links[position(links, x)].spec_key()
            == p
}

/// In a tree whose children hang under their parents, every node climbs to
/// the top of the tree.
pub proof fn lemma_tree_climbs(t: Outline, links: Seq<BlockLink>, x: i64) -> (fuel: nat)
    requires
        t.distinct(),
        parents_agree(t, links),
        t.contains(x),
        x != t.id,
    ensures
        has_id(links, x),
        climbs(links, position(links, x), t.id, fuel),
    decreases t,
{
    assert(forest_ids(t.children).contains(x)) by {
        let k = choose|k: int| 0 <= k < t.ids().len() && t.ids()[k] == x;
        assert(k > 0);
        assert(forest_ids(t.children)[k - 1] == x);
    }
    lemma_forest_member(t.children, x);
    let c = choose|c: int| 0 <= c < t.children.len() && #[trigger] t.children[c].contains(x);
    let s = t.children[c];
    lemma_children_distinct(t, c, c);
    assert(t.children_of(t.id).contains(s.id)) by {
        assert(t.find(t.id) == Some(t));
        assert(t.child_ids()[c] == s.id);
    }
    if x == s.id {
        0
    } else {
        assert(parents_agree(s, links)) by {
            assert forall|p: i64, y: i64| #[trigger] s.children_of(p).contains(y) implies has_id(
                links,
                y,
            ) && links[position(links, y)].spec_key() == p by {
                lemma_find_contains(s, p);
                lemma_child_find(t, c, p);
                assert(t.children_of(p).contains(y));
            }
        }
        let f = lemma_tree_climbs(s, links, x);
        lemma_climbs_on(links, position(links, x), s.id, t.id, f, 0);
        f + 1
    }
}

/// A link that climbs to the page root is in the tree grown from the root,
/// and the child list of its parent was used.
proof fn lemma_rooted_in_tree(
    links: Seq<BlockLink>,
    pre: Map<i64, Vec<i64>>,
    post: Map<i64, Vec<i64>>,
    t: Outline,
    i: int,
    fuel: nat,
)
    requires
        well_formed(links),
        groups_match(links, pre),
        grown(pre, post, seq![ROOT_ID], seq![t]),
        0 <= i < links.len(),
        climbs(links, i, ROOT_ID, fuel),
    ensures
        t.contains(links[i].id),
        !post.contains_key(links[i].spec_key()),
    decreases fuel,
{
    reveal(grown);
    lemma_forest_ids_single(t);
    let k = links[i].spec_key();
    if k == ROOT_ID {
        assert(seq![ROOT_ID][0] == ROOT_ID);
        assert(forest_ids(seq![t]).contains(ROOT_ID));
    } else {
        let up = position(links, k);
        assert(0 <= up < links.len() && links[up].id == k);
        lemma_rooted_in_tree(links, pre, post, t, up, (fuel - 1) as nat);
        assert(forest_ids(seq![t]).contains(k));
    }
    assert(!post.contains_key(k));
    assert(pre.contains_key(k) && pre[k]@.contains(links[i].id));
    assert(taken(pre, post, links[i].id));
    assert(forest_ids(seq![t]).contains(links[i].id));
}

/// What the tree grown from the page root says about the links: its nodes
/// are below the root, and a link is in the tree exactly where the child
/// list of its parent was used.
proof fn lemma_grown_tree(
    links: Seq<BlockLink>,
    pre: Map<i64, Vec<i64>>,
    post: Map<i64, Vec<i64>>,
    t: Outline,
)
    requires
        well_formed(links),
        separate(pre),
        groups_match(links, pre),
        grown(pre, post, seq![ROOT_ID], seq![t]),
    ensures
        t.id == ROOT_ID,
        t.distinct(),
        parents_agree(t, links),
        forall|i: int|
            0 <= i < links.len() ==> (#[trigger] post.contains_key(links[i].spec_key())
                <==> !rooted(links, i)),
        forall|i: int|
            0 <= i < links.len() ==> (t.contains(#[trigger] links[i].id) <==> rooted(links, i)),
        forall|x: i64| #[trigger] t.contains(x) ==> x == ROOT_ID || has_id(links, x),
        forall|p: i64| #[trigger]
            t.contains(p) ==> t.children_of(p) == list_of(pre, p) && !post.contains_key(p),
{
    reveal(grown);
    lemma_forest_ids_single(t);
    assert(seq![t][0].id == seq![ROOT_ID][0]);
    assert forall|p: i64| #[trigger] t.contains(p) implies t.children_of(p) == list_of(pre, p)
        && !post.contains_key(p) by {
        assert(forest_ids(seq![t]).contains(p));
        crate::node::lemma_forest_ids_push(Seq::<Outline>::empty(), t);
        assert(Seq::<Outline>::empty().push(t) =~= seq![t]);
    }
    assert forall|x: i64| #[trigger] t.contains(x) implies x == ROOT_ID || has_id(links, x) by {
        assert(forest_ids(seq![t]).contains(x));
        if seq![ROOT_ID].contains(x) {
            let k = choose|k: int| 0 <= k < seq![ROOT_ID].len() && seq![ROOT_ID][k] == x;
        } else {
            let k = choose|k: i64|
                pre.contains_key(k) && !post.contains_key(k) && #[trigger] pre[k]@.contains(x);
        }
    }
    assert(parents_agree(t, links)) by {
        assert forall|p: i64, x: i64| #[trigger] t.children_of(p).contains(x) implies has_id(
            links,
            x,
        ) && links[position(links, x)].spec_key() == p by {
            lemma_find_contains(t, p);
            assert(t.contains(p));
            assert(pre.contains_key(p) && pre[p]@.contains(x));
        }
    }
    assert forall|i: int| 0 <= i < links.len() implies (#[trigger] post.contains_key(
        links[i].spec_key(),
    ) <==> !rooted(links, i)) && (t.contains(links[i].id) <==> rooted(links, i)) by {
        let k = links[i].spec_key();
        if rooted(links, i) {
            let fuel = choose|fuel: nat| climbs(links, i, ROOT_ID, fuel);
            lemma_rooted_in_tree(links, pre, post, t, i, fuel);
        }
        if !post.contains_key(k) {
            assert(pre.contains_key(k) && pre[k]@.contains(links[i].id));
            assert(taken(pre, post, links[i].id));
            assert(forest_ids(seq![t]).contains(links[i].id));
        }
        if t.contains(links[i].id) {
            lemma_tree_climbs(t, links, links[i].id);
            lemma_position(links, i);
        }
    }
}

/// A tree that holds every link, grown from child lists that match the
/// links, is the tree that the links describe.
proof fn lemma_describes(
    links: Seq<BlockLink>,
    pre: Map<i64, Vec<i64>>,
    post: Map<i64, Vec<i64>>,
    t: Outline,
)
    requires
        well_formed(links),
        separate(pre),
        groups_match(links, pre),
        grown(pre, post, seq![ROOT_ID], seq![t]),
        forall|i: int| 0 <= i < links.len() ==> rooted(links, i),
    ensures
        describes(t, links),
{
    lemma_grown_tree(links, pre, post, t);
    assert forall|id: i64| #[trigger] t.contains(id) <==> id == ROOT_ID || has_id(links, id) by {
        if id == ROOT_ID {
            assert(t.ids()[0] == id);
        } else if has_id(links, id) {
            let j = choose|j: int| 0 <= j < links.len() && #[trigger] links[j].id == id;
            assert(t.contains(links[j].id));
        }
    }
    assert forall|p: i64| sibling_order(links, p, #[trigger] t.children_of(p)) by {
        lemma_find_contains(t, p);
        if t.contains(p) {
            if !pre.contains_key(p) {
                assert forall|i: int| 0 <= i < links.len() implies #[trigger] links[i].spec_key()
                    != p by {
                    assert(pre.contains_key(links[i].spec_key()));
                }
            }
        } else {
            assert forall|i: int| 0 <= i < links.len() implies #[trigger] links[i].spec_key()
                != p by {
                if links[i].spec_key() == p {
                    assert(t.contains(links[i].id));
                    let fuel = choose|fuel: nat| climbs(links, i, ROOT_ID, fuel);
                    if p != ROOT_ID {
                        let up = position(links, p);
                        assert(0 <= up < links.len() && links[up].id == p);
                        assert(t.contains(links[up].id)) by {
                            assert(climbs(links, up, ROOT_ID, (fuel - 1) as nat));
                            assert(rooted(links, up));
                        }
                    } else {
                        assert(t.ids()[0] == ROOT_ID);
                    }
                }
            }
        }
    }
}

/// Rebuilds the ordered tree that the links describe, under the page root.
///
/// Succeeds exactly on valid links. Otherwise it reports what is wrong and
/// returns no tree.
pub fn build(links: &Vec<BlockLink>) -> (res: Result<OutlineNode, StructuralIntegrityError>)
    requires
        well_formed(links@),
    ensures
        res is Ok <==> valid(links@),
        match res {
            Ok(tree) => describes(tree@, links@),
            Err(e) => reports(links@, e),
        },
        forall|e: StructuralIntegrityError|
            #[trigger] reports(links@, e) <==> (res matches Err(found) && found == e),
{
    let res = build_checked(links);
    proof {
        assert forall|e: StructuralIntegrityError|
            #[trigger] reports(links@, e) <==> (res matches Err(found) && found == e) by {
            if reports(links@, e) {
                lemma_one_report(links@, e, e);
                lemma_one_report(links@, e, res->Err_0);
            }
        }
    }
    res
}

/// Rebuilds the tree or finds the first fault, pass by pass.
fn build_checked(links: &Vec<BlockLink>) -> (res: Result<OutlineNode, StructuralIntegrityError>)
    requires
        well_formed(links@),
    ensures
        res is Ok <==> valid(links@),
        match res {
            Ok(tree) => describes(tree@, links@),
            Err(e) => reports(links@, e),
        },
{
    let n = links.len();
    let index = index_links(links);
    let followers = mark_followers(links, &index);
    match second_head_parent(links, &followers) {
        Some(parent) => {
            proof {
                let i = choose|i: int|
                    {
                        &&& 0 <= i < links@.len()
                        &&& #[trigger] second_head(links@, i)
                        &&& links@[i].spec_key() == parent
                        &&& forall|j: int| 0 <= j < i ==> !second_head(links@, j)
                    };
                assert(first_second_head(links@, i));
            }
            return Err(StructuralIntegrityError::MultipleHeads(parent));
        },
        None => {},
    }
    proof {
        reveal(single_heads);
    }
    let (mut groups, chained, Ghost(walks)) = chain_groups(links, &index, &followers);
    let mut i: usize = 0;
    while i < n
        invariant
            i <= n,
            n == links@.len(),
            chained@.len() == n,
            forall|x: int|
                0 <= x < links@.len() ==> (#[trigger] chained@[x] <==> on_chain(links@, x)),
            forall|j: int| 0 <= j < i ==> on_chain(links@, j),
            forall|j: int| 0 <= j < links@.len() ==> !second_head(links@, j),
        decreases n - i,
    {
        if !chained[i] {
            proof {
                assert(first_off_chain(links@, i as int));
            }
            return Err(StructuralIntegrityError::CycleDetected(links[i].key()));
        }
        i = i + 1;
    }
    i = 0;
    while i < n
        invariant
            i <= n,
            n == links@.len(),
            indexes(index@, links@),
            forall|j: int| 0 <= j < i ==> !dangling(links@, j),
            forall|j: int| 0 <= j < links@.len() ==> !second_head(links@, j),
            forall|j: int| 0 <= j < links@.len() ==> on_chain(links@, j),
        decreases n - i,
    {
        let key = links[i].key();
        if key != ROOT_ID && !index.contains_key(&key) {
            proof {
                assert(first_dangling(links@, i as int));
            }
            return Err(StructuralIntegrityError::DanglingParent(links[i].id));
        }
        i = i + 1;
    }
    let ghost pre = groups@;
    proof {
        lemma_groups_facts(links@, pre, chained@, walks);
    }
    let tree = assemble(ROOT_ID, &mut groups);
    proof {
        lemma_grown_tree(links@, pre, groups@, tree@);
    }
    i = 0;
    while i < n
        invariant
            i <= n,
            n == links@.len(),
            forall|x: int|
                0 <= x < links@.len() ==> (#[trigger] groups@.contains_key(links@[x].spec_key())
                    <==> !rooted(links@, x)),
            forall|j: int| 0 <= j < i ==> rooted(links@, j),
            forall|j: int| 0 <= j < links@.len() ==> !second_head(links@, j),
            forall|j: int| 0 <= j < links@.len() ==> on_chain(links@, j),
            forall|j: int| 0 <= j < links@.len() ==> !dangling(links@, j),
        decreases n - i,
    {
        let key = links[i].key();
        if groups.contains_key(&key) {
            proof {
                assert(first_unrooted(links@, i as int));
            }
            return Err(StructuralIntegrityError::CycleDetected(key));
        }
        i = i + 1;
    }
    proof {
        lemma_describes(links@, pre, groups@, tree@);
    }
    Ok(tree)
}

} // verus!
