//! What a sequence of block links says about sibling order and ancestry.

use std::collections::HashMap;
use vstd::prelude::*;
use vstd::std_specs::hash::*;
use crate::records::{BlockLink, ROOT_ID};

verus! {

broadcast use vstd::std_specs::hash::group_hash_axioms;

/// Whether some link carries this id.
pub open spec fn has_id(links: Seq<BlockLink>, id: i64) -> bool {
    exists|j: int| 0 <= j < links.len() && #[trigger] links[j].id == id
}

/// The place of the link with this id.
pub open spec fn position(links: Seq<BlockLink>, id: i64) -> int {
    choose|j: int| 0 <= j < links.len() && #[trigger] links[j].id == id
}

/// No two links carry the same id.
pub open spec fn distinct_ids(links: Seq<BlockLink>) -> bool {
    forall|i: int, j: int|
        0 <= i < j < links.len() ==> #[trigger] links[i].id != #[trigger] links[j].id
}

/// Every link has an id of its own, and none has the id of the page root.
pub open spec fn well_formed(links: Seq<BlockLink>) -> bool {
    &&& distinct_ids(links)
    &&& forall|i: int| 0 <= i < links.len() ==> #[trigger] links[i].id != ROOT_ID
}

/// The place of the sibling that follows the link at `i`: the link that its
/// next-sibling id names, provided that link hangs under the same parent.
pub open spec fn successor(links: Seq<BlockLink>, i: int) -> Option<int> {
    match links[i].next_sibling_id {
        Some(n) => if has_id(links, n) && links[position(links, n)].spec_key()
            == links[i].spec_key() {
            Some(position(links, n))
        } else {
            None
        },
        None => None,
    }
}

/// A head: no sibling names this link as its successor.
pub open spec fn is_head(links: Seq<BlockLink>, i: int) -> bool {
    forall|j: int| 0 <= j < links.len() ==> #[trigger] successor(links, j) != Some(i)
}

/// A head whose parent already has a head earlier in the sequence.
pub open spec fn second_head(links: Seq<BlockLink>, i: int) -> bool {
    &&& is_head(links, i)
    &&& exists|j: int|
        0 <= j < i && is_head(links, j) && #[trigger] links[j].spec_key() == links[i].spec_key()
}

/// A path of places in which each link is followed by its successor.
pub open spec fn is_path(links: Seq<BlockLink>, s: Seq<int>) -> bool {
    &&& forall|k: int| 0 <= k < s.len() ==> 0 <= #[trigger] s[k] < links.len()
    &&& forall|k: int| 0 <= k < s.len() - 1 ==> successor(links, #[trigger] s[k]) == Some(s[k + 1])
}

/// A sibling walk: a path that starts at a head and stops at a link without
/// a successor.
pub open spec fn is_walk(links: Seq<BlockLink>, s: Seq<int>) -> bool {
    &&& s.len() > 0
    &&& is_path(links, s)
    &&& is_head(links, s[0])
    &&& successor(links, s.last()) is None
}

/// The link at `i` lies on a sibling walk.
pub open spec fn on_chain(links: Seq<BlockLink>, i: int) -> bool {
    exists|s: Seq<int>| is_walk(links, s) && #[trigger] s.contains(i)
}

/// The link at `i` names a parent that no link carries.
pub open spec fn dangling(links: Seq<BlockLink>, i: int) -> bool {
    links[i].spec_key() != ROOT_ID && !has_id(links, links[i].spec_key())
}

/// Following parents from the link at `i` reaches the node with id `top` in
/// at most `fuel` further steps.
pub open spec fn climbs(links: Seq<BlockLink>, i: int, top: i64, fuel: nat) -> bool
    decreases fuel,
{
    links[i].spec_key() == top || (fuel > 0 && has_id(links, links[i].spec_key()) && climbs(
        links,
        position(links, links[i].spec_key()),
        top,
        (fuel - 1) as nat,
    ))
}

/// Following parents from the link at `i` reaches the page root.
pub open spec fn rooted(links: Seq<BlockLink>, i: int) -> bool {
    exists|fuel: nat| climbs(links, i, ROOT_ID, fuel)
}

/// The ids of the links at the given places.
pub open spec fn ids_at(links: Seq<BlockLink>, s: Seq<int>) -> Seq<i64> {
    Seq::new(s.len(), |k: int| links[s[k]].id)
}

/// The links describe a tree: one head per parent, every link on a sibling
/// walk, every parent present, and every link below the page root.
pub open spec fn valid(links: Seq<BlockLink>) -> bool {
    &&& forall|i: int| 0 <= i < links.len() ==> !second_head(links, i)
    &&& forall|i: int| 0 <= i < links.len() ==> on_chain(links, i)
    &&& forall|i: int| 0 <= i < links.len() ==> !dangling(links, i)
    &&& forall|i: int| 0 <= i < links.len() ==> rooted(links, i)
}

/// Where every link has an id of its own, the place of an id is the place
/// where it stands.
pub proof fn lemma_position(links: Seq<BlockLink>, j: int)
    requires
        distinct_ids(links),
        0 <= j < links.len(),
    ensures
        has_id(links, links[j].id),
        position(links, links[j].id) == j,
{
    let p = position(links, links[j].id);
    assert(0 <= p < links.len() && links[p].id == links[j].id);
    if p < j {
        assert(links[p].id != links[j].id);
    } else if j < p {
        assert(links[j].id != links[p].id);
    }
}

/// A successor is a place in the sequence, under the same parent, and
/// carries the id that the link names as its next sibling.
pub proof fn lemma_successor(links: Seq<BlockLink>, i: int)
    requires
        0 <= i < links.len(),
        successor(links, i) is Some,
    ensures
        0 <= successor(links, i)->Some_0 < links.len(),
        links[successor(links, i)->Some_0].spec_key() == links[i].spec_key(),
        links[i].next_sibling_id == Some(links[successor(links, i)->Some_0].id),
{
    let n = links[i].next_sibling_id->Some_0;
    let p = position(links, n);
    assert(has_id(links, n));
}

/// Two paths that start at the same place agree as far as both go.
pub proof fn lemma_paths_agree(links: Seq<BlockLink>, a: Seq<int>, b: Seq<int>, k: int)
    requires
        is_path(links, a),
        is_path(links, b),
        0 <= k < a.len(),
        k < b.len(),
        a[0] == b[0],
    ensures
        a[k] == b[k],
    decreases k,
{
    if k > 0 {
        lemma_paths_agree(links, a, b, k - 1);
        assert(successor(links, a[k - 1]) == Some(a[k]));
        assert(successor(links, b[k - 1]) == Some(b[k]));
    }
}

/// There is one sibling walk from a head.
pub proof fn lemma_walks_agree(links: Seq<BlockLink>, a: Seq<int>, b: Seq<int>)
    requires
        is_walk(links, a),
        is_walk(links, b),
        a[0] == b[0],
    ensures
        a == b,
{
    if a.len() < b.len() {
        lemma_paths_agree(links, a, b, a.len() - 1);
        assert(successor(links, b[a.len() - 1]) == Some(b[a.len() - 1 + 1]));
    } else if b.len() < a.len() {
        lemma_paths_agree(links, a, b, b.len() - 1);
        assert(successor(links, a[b.len() - 1]) == Some(a[b.len() - 1 + 1]));
    }
    assert forall|k: int| 0 <= k < a.len() implies a[k] == b[k] by {
        lemma_paths_agree(links, a, b, k);
    }
    assert(a =~= b);
}

/// A path stays inside a set of places that is closed under the successor.
pub proof fn lemma_closed_path(links: Seq<BlockLink>, p: Seq<int>, q: Seq<int>, k: int)
    requires
        forall|j: int|
            0 <= j < p.len() ==> successor(links, #[trigger] p[j]) is Some && p.contains(
                successor(links, p[j])->Some_0,
            ),
        is_path(links, q),
        0 <= k < q.len(),
        p.contains(q[0]),
    ensures
        p.contains(q[k]),
    decreases k,
{
    if k > 0 {
        lemma_closed_path(links, p, q, k - 1);
        let j = choose|j: int| 0 <= j < p.len() && p[j] == q[k - 1];
        assert(successor(links, p[j]) is Some);
        assert(successor(links, q[k - 1]) == Some(q[k]));
    }
}

/// All links of a path hang under the same parent.
pub proof fn lemma_path_key(links: Seq<BlockLink>, p: Seq<int>, k: int)
    requires
        is_path(links, p),
        0 <= k < p.len(),
    ensures
        links[p[k]].spec_key() == links[p[0]].spec_key(),
    decreases k,
{
    if k > 0 {
        lemma_path_key(links, p, k - 1);
        assert(successor(links, p[k - 1]) == Some(p[k]));
        lemma_successor(links, p[k - 1]);
    }
}

/// Where a path passes a link twice, it repeats from there on.
proof fn lemma_path_repeats(links: Seq<BlockLink>, w: Seq<int>, a: int, b: int, k: int)
    requires
        is_path(links, w),
        0 <= a < b,
        0 <= k,
        b + k < w.len(),
        w[a] == w[b],
    ensures
        w[a + k] == w[b + k],
    decreases k,
{
    if k > 0 {
        lemma_path_repeats(links, w, a, b, k - 1);
        assert(successor(links, w[a + k - 1]) == Some(w[a + k - 1 + 1]));
        assert(successor(links, w[b + k - 1]) == Some(w[b + k - 1 + 1]));
    }
}

/// A sibling walk passes no link twice.
pub proof fn lemma_walk_distinct(links: Seq<BlockLink>, w: Seq<int>, a: int, b: int)
    requires
        is_walk(links, w),
        0 <= a < b < w.len(),
    ensures
        w[a] != w[b],
{
    if w[a] == w[b] {
        let k = w.len() - 1 - b;
        lemma_path_repeats(links, w, a, b, k);
        assert(successor(links, w[a + k]) == Some(w[a + k + 1]));
    }
}

/// Climbing to a node and on from it is climbing.
pub proof fn lemma_climbs_on(
    links: Seq<BlockLink>,
    i: int,
    mid: i64,
    top: i64,
    f1: nat,
    f2: nat,
)
    requires
        climbs(links, i, mid, f1),
        has_id(links, mid),
        climbs(links, position(links, mid), top, f2),
    ensures
        climbs(links, i, top, f1 + f2 + 1),
    decreases f1,
{
    if links[i].spec_key() == mid {
        lemma_climbs_more(links, position(links, mid), top, f2, f1 + f2);
    } else {
        lemma_climbs_on(
            links,
            position(links, links[i].spec_key()),
            mid,
            top,
            (f1 - 1) as nat,
            f2,
        );
    }
}

/// More fuel does not hurt.
pub proof fn lemma_climbs_more(links: Seq<BlockLink>, i: int, top: i64, f: nat, g: nat)
    requires
        climbs(links, i, top, f),
        f <= g,
    ensures
        climbs(links, i, top, g),
    decreases f,
{
    if links[i].spec_key() != top {
        lemma_climbs_more(
            links,
            position(links, links[i].spec_key()),
            top,
            (f - 1) as nat,
            (g - 1) as nat,
        );
    }
}

/// Whether the links are well formed: every link has an id of its own, and
/// none has the id of the page root.
pub fn is_well_formed(links: &Vec<BlockLink>) -> (ok: bool)
    ensures
        ok == well_formed(links@),
{
    let mut seen: HashMap<i64, usize> = HashMap::new();
    let mut i: usize = 0;
    while i < links.len()
        invariant
            i <= links@.len(),
            forall|a: int, b: int|
                0 <= a < b < i ==> #[trigger] links@[a].id != #[trigger] links@[b].id,
            forall|a: int| 0 <= a < i ==> #[trigger] links@[a].id != ROOT_ID,
            forall|id: i64| #[trigger]
                seen@.contains_key(id) <==> exists|a: int| 0 <= a < i && links@[a].id == id,
        decreases links@.len() - i,
    {
        let id = links[i].id;
        if id == ROOT_ID {
            return false;
        }
        if seen.contains_key(&id) {
            proof {
                let a = choose|a: int| 0 <= a < i && links@[a].id == id;
                assert(links@[a].id == links@[i as int].id);
            }
            return false;
        }
        seen.insert(id, i);
        i = i + 1;
    }
    true
}

} // verus!
