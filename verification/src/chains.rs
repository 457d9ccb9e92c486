//! Sibling chains: from flat links to one ordered child list per parent.

use std::collections::HashMap;
use vstd::prelude::*;
use vstd::std_specs::hash::*;
use crate::links::{
    distinct_ids, has_id, ids_at, is_head, is_path, is_walk, lemma_closed_path, lemma_path_key,
    lemma_position, lemma_successor, lemma_walks_agree, on_chain, position, second_head, successor,
    well_formed,
};
use crate::records::BlockLink;

verus! {

broadcast use vstd::std_specs::hash::group_hash_axioms;

/// The index maps every id of the links to its place.
pub open spec fn indexes(index: Map<i64, usize>, links: Seq<BlockLink>) -> bool {
    &&& forall|id: i64| #[trigger] index.contains_key(id) <==> has_id(links, id)
    &&& forall|id: i64| #[trigger]
        index.contains_key(id) ==> index[id] as int == position(links, id)
}

/// Maps every id to its place in the sequence.
pub(crate) fn index_links(links: &Vec<BlockLink>) -> (index: HashMap<i64, usize>)
    requires
        distinct_ids(links@),
    ensures
        indexes(index@, links@),
{
    let mut index: HashMap<i64, usize> = HashMap::new();
    let mut i: usize = 0;
    while i < links.len()
        invariant
            i <= links.len(),
            distinct_ids(links@),
            forall|id: i64| #[trigger]
                index@.contains_key(id) <==> exists|j: int| 0 <= j < i && links@[j].id == id,
            forall|id: i64| #[trigger]
                index@.contains_key(id) ==> index@[id] as int == position(links@, id),
        decreases links.len() - i,
    {
        proof {
            lemma_position(links@, i as int);
        }
        index.insert(links[i].id, i);
        i = i + 1;
    }
    index
}

/// The place of the sibling that follows the link at `i`.
pub(crate) fn successor_of(
    links: &Vec<BlockLink>,
    index: &HashMap<i64, usize>,
    i: usize,
) -> (next: Option<usize>)
    requires
        well_formed(links@),
        indexes(index@, links@),
        i < links.len(),
    ensures
        match next {
            Some(j) => successor(links@, i as int) == Some(j as int) && j < links.len(),
            None => successor(links@, i as int) is None,
        },
{
    match links[i].next_sibling_id {
        Some(n) => match index.get(&n) {
            Some(j) => {
                let j: usize = *j;
                assert(has_id(links@, n));
                if links[j].key() == links[i].key() {
                    Some(j)
                } else {
                    None
                }
            },
            None => None,
        },
        None => None,
    }
}

/// As many flags as asked for, none of them set.
fn unset_flags(n: usize) -> (flags: Vec<bool>)
    ensures
        flags@.len() == n,
        forall|j: int| 0 <= j < n ==> !(#[trigger] flags@[j]),
{
    let mut flags: Vec<bool> = Vec::new();
    let mut i: usize = 0;
    while i < n
        invariant
            i <= n,
            flags@.len() == i,
            forall|j: int| 0 <= j < i ==> !(#[trigger] flags@[j]),
        decreases n - i,
    {
        flags.push(false);
        i = i + 1;
    }
    flags
}

/// The flags tell the links that follow a sibling from the heads.
pub open spec fn flags_followers(links: Seq<BlockLink>, followers: Seq<bool>) -> bool {
    &&& followers.len() == links.len()
    &&& forall|j: int| 0 <= j < links.len() ==> (#[trigger] followers[j] <==> !is_head(links, j))
}

/// Marks every link that some sibling names as its successor.
pub(crate) fn mark_followers(links: &Vec<BlockLink>, index: &HashMap<i64, usize>) -> (followers:
    Vec<bool>)
    requires
        well_formed(links@),
        indexes(index@, links@),
    ensures
        flags_followers(links@, followers@),
{
    let n = links.len();
    let mut followers = unset_flags(n);
    let mut i: usize = 0;
    while i < n
        invariant
            i <= n,
            n == links@.len(),
            well_formed(links@),
            indexes(index@, links@),
            followers@.len() == n,
            forall|j: int|
                0 <= j < n ==> (#[trigger] followers@[j] <==> exists|k: int|
                    0 <= k < i && successor(links@, k) == Some(j)),
        decreases n - i,
    {
        match successor_of(links, index, i) {
            Some(j) => {
                followers.set(j, true);
            },
            None => {},
        }
        i = i + 1;
    }
    proof {
        assert forall|j: int| 0 <= j < links@.len() implies (#[trigger] followers@[j] <==> !is_head(
            links@,
            j,
        )) by {
            if followers@[j] {
                let k = choose|k: int| 0 <= k < i && successor(links@, k) == Some(j);
                assert(successor(links@, k) == Some(j));
            }
        }
    }
    followers
}

/// The parent of the first head that comes second, if any parent has two
/// heads.
pub(crate) fn second_head_parent(links: &Vec<BlockLink>, followers: &Vec<bool>) -> (found: Option<
    i64,
>)
    requires
        flags_followers(links@, followers@),
    ensures
        match found {
            None => single_heads(links@),
            Some(parent) => exists|i: int|
                {
                    &&& 0 <= i < links@.len()
                    &&& #[trigger] second_head(links@, i)
                    &&& links@[i].spec_key() == parent
                    &&& forall|j: int| 0 <= j < i ==> !second_head(links@, j)
                },
        },
{
    let mut heads: HashMap<i64, usize> = HashMap::new();
    let mut i: usize = 0;
    while i < links.len()
        invariant
            i <= links.len(),
            flags_followers(links@, followers@),
            forall|j: int| 0 <= j < i ==> !second_head(links@, j),
            forall|j: int|
                0 <= j < i && is_head(links@, j) ==> heads@.contains_key(
                    #[trigger] links@[j].spec_key(),
                ),
            forall|k: i64| #[trigger]
                heads@.contains_key(k) ==> 0 <= heads@[k] < i && is_head(links@, heads@[k] as int)
                    && links@[heads@[k] as int].spec_key() == k,
        decreases links.len() - i,
    {
        if !followers[i] {
            let key = links[i].key();
            if heads.contains_key(&key) {
                proof {
                    let j = heads@[key] as int;
                    assert(links@[j].spec_key() == links@[i as int].spec_key());
                    assert(second_head(links@, i as int));
                }
                return Some(key);
            }
            proof {
                assert(!second_head(links@, i as int)) by {
                    if second_head(links@, i as int) {
                        let j = choose|j: int|
                            0 <= j < i && is_head(links@, j) && #[trigger] links@[j].spec_key()
                                == links@[i as int].spec_key();
                        assert(heads@.contains_key(links@[j].spec_key()));
                    }
                }
            }
            heads.insert(key, i);
        }
        i = i + 1;
    }
    proof {
        reveal(single_heads);
    }
    None
}

/// How many of the flags are not set.
pub open spec fn unset(flags: Seq<bool>) -> nat
    decreases flags.len(),
{
    if flags.len() == 0 {
        0
    } else {
        unset(flags.drop_last()) + if flags.last() {
            0nat
        } else {
            1nat
        }
    }
}

/// Setting a flag that was not set leaves one flag less unset.
proof fn lemma_unset_update(flags: Seq<bool>, i: int)
    requires
        0 <= i < flags.len(),
        !flags[i],
    ensures
        unset(flags.update(i, true)) + 1 == unset(flags),
    decreases flags.len(),
{
    let after = flags.update(i, true);
    if i == flags.len() - 1 {
        assert(after.drop_last() =~= flags.drop_last());
    } else {
        assert(after.drop_last() =~= flags.drop_last().update(i, true));
        lemma_unset_update(flags.drop_last(), i);
    }
}

/// The places that a vector of indices holds.
pub open spec fn places(v: Seq<usize>) -> Seq<int> {
    Seq::new(v.len(), |k: int| v[k] as int)
}

/// Every marked link hangs under a parent whose head stands before `head`.
#[verifier::opaque]
pub open spec fn marked_before(links: Seq<BlockLink>, placed: Seq<bool>, head: int) -> bool {
    forall|x: int|
        0 <= x < links.len() && #[trigger] placed[x] ==> exists|h: int|
            0 <= h < head && is_head(links, h) && #[trigger] links[h].spec_key()
                == links[x].spec_key()
}

/// No parent has two heads.
#[verifier::opaque]
pub open spec fn single_heads(links: Seq<BlockLink>) -> bool {
    forall|i: int| 0 <= i < links.len() ==> !second_head(links, i)
}

/// A path that leads back into itself lies on no sibling walk.
proof fn lemma_revisit(links: Seq<BlockLink>, path: Seq<int>, cur: int)
    requires
        is_path(links, path),
        path.len() > 0,
        successor(links, path.last()) == Some(cur),
        path.contains(cur),
    ensures
        forall|s: Seq<int>| !(is_walk(links, s) && s[0] == path[0]),
{
    assert forall|j: int| 0 <= j < path.len() implies successor(links, #[trigger] path[j]) is Some
        && path.contains(successor(links, path[j])->Some_0) by {
        if j < path.len() - 1 {
            assert(successor(links, path[j]) == Some(path[j + 1]));
            assert(path[j + 1] == path[j + 1]);
        }
    }
    assert forall|s: Seq<int>| !(is_walk(links, s) && s[0] == path[0]) by {
        if is_walk(links, s) && s[0] == path[0] {
            lemma_closed_path(links, path, s, s.len() - 1);
            let j = choose|j: int| 0 <= j < path.len() && path[j] == s.last();
            assert(successor(links, path[j]) is Some);
        }
    }
}

/// A path grows by the successor of its last place.
proof fn lemma_path_push(links: Seq<BlockLink>, path: Seq<int>, cur: int)
    requires
        is_path(links, path),
        0 <= cur < links.len(),
        path.len() > 0 ==> successor(links, path.last()) == Some(cur),
    ensures
        is_path(links, path.push(cur)),
{
    let longer = path.push(cur);
    assert forall|k: int| 0 <= k < longer.len() - 1 implies successor(links, #[trigger] longer[k])
        == Some(longer[k + 1]) by {
        if k < path.len() - 1 {
            assert(successor(links, path[k]) == Some(path[k + 1]));
        }
    }
}

/// A link that was marked before the walk from `head` began cannot hang
/// under the parent of `head`.
proof fn lemma_marked_elsewhere(links: Seq<BlockLink>, placed: Seq<bool>, head: int, x: int)
    requires
        single_heads(links),
        marked_before(links, placed, head),
        0 <= head < links.len(),
        is_head(links, head),
        0 <= x < links.len(),
        placed[x],
    ensures
        links[x].spec_key() != links[head].spec_key(),
{
    reveal(marked_before);
    reveal(single_heads);
    if links[x].spec_key() == links[head].spec_key() {
        let h = choose|h: int|
            0 <= h < head && is_head(links, h) && #[trigger] links[h].spec_key()
                == links[x].spec_key();
        assert(second_head(links, head));
    }
}

/// Follows successors from the head at `head`, marking each link it passes.
/// Returns the places passed where the walk stops, and nothing where it
/// runs into a link that is already marked.
pub(crate) fn walk_from(
    links: &Vec<BlockLink>,
    index: &HashMap<i64, usize>,
    head: usize,
    placed: &mut Vec<bool>,
) -> (walk: Option<Vec<usize>>)
    requires
        well_formed(links@),
        indexes(index@, links@),
        head < links@.len(),
        is_head(links@, head as int),
        single_heads(links@),
        old(placed)@.len() == links@.len(),
        marked_before(links@, old(placed)@, head as int),
    ensures
        final(placed)@.len() == links@.len(),
        forall|x: int|
            0 <= x < links@.len() && #[trigger] final(placed)@[x] ==> old(placed)@[x]
                || links@[x].spec_key() == links@[head as int].spec_key(),
        forall|x: int| 0 <= x < links@.len() && old(placed)@[x] ==> #[trigger] final(placed)@[x],
        match walk {
            Some(walk) => is_walk(links@, places(walk@)) && walk@[0] == head,
            None => forall|s: Seq<int>| !(is_walk(links@, s) && s[0] == head),
        },
{
    let mut walk: Vec<usize> = Vec::new();
    let mut cur: usize = head;
    loop
        invariant
            well_formed(links@),
            indexes(index@, links@),
            head < links@.len(),
            cur < links@.len(),
            is_head(links@, head as int),
            single_heads(links@),
            placed@.len() == links@.len(),
            old(placed)@.len() == links@.len(),
            marked_before(links@, old(placed)@, head as int),
            forall|x: int|
                0 <= x < links@.len() && #[trigger] placed@[x] ==> old(placed)@[x] || places(
                    walk@,
                ).contains(x),
            forall|x: int|
                0 <= x < links@.len() && #[trigger] placed@[x] ==> old(placed)@[x]
                    || links@[x].spec_key() == links@[head as int].spec_key(),
            forall|x: int| 0 <= x < links@.len() && old(placed)@[x] ==> #[trigger] placed@[x],
            is_path(links@, places(walk@)),
            walk@.len() == 0 ==> cur == head,
            walk@.len() > 0 ==> walk@[0] == head && successor(links@, walk@.last() as int) == Some(
                cur as int,
            ),
            links@[cur as int].spec_key() == links@[head as int].spec_key(),
        decreases unset(placed@),
    {
        let ghost path = places(walk@);
        if placed[cur] {
            proof {
                if old(placed)@[cur as int] {
                    lemma_marked_elsewhere(links@, old(placed)@, head as int, cur as int);
                }
                assert(path.contains(cur as int));
                assert(path.last() == walk@.last() as int);
                lemma_revisit(links@, path, cur as int);
            }
            return None;
        }
        proof {
            lemma_unset_update(placed@, cur as int);
            lemma_path_push(links@, path, cur as int);
        }
        let ghost before = placed@;
        placed.set(cur, true);
        walk.push(cur);
        let ghost longer = places(walk@);
        proof {
            assert(longer =~= path.push(cur as int));
            assert forall|x: int| 0 <= x < links@.len() && #[trigger] placed@[x] implies old(
                placed,
            )@[x] || longer.contains(x) by {
                if x == cur {
                    assert(longer[longer.len() - 1] == x);
                } else if !old(placed)@[x] {
                    assert(before[x]);
                    let k = choose|k: int| 0 <= k < path.len() && path[k] == x;
                    assert(longer[k] == x);
                }
            }
        }
        match successor_of(links, index, cur) {
            Some(next) => {
                proof {
                    lemma_successor(links@, cur as int);
                }
                cur = next;
            },
            None => {
                return Some(walk);
            },
        }
    }
}

/// What the recorded sibling walks say: each list of child ids was read off
/// a walk that starts under its parent before `upto`, the links of every
/// recorded walk are flagged, and every flagged link is on its parent's walk.
#[verifier::opaque]
pub open spec fn recorded(
    links: Seq<BlockLink>,
    groups: Map<i64, Vec<i64>>,
    chained: Seq<bool>,
    walks: Map<i64, Seq<int>>,
    upto: int,
) -> bool {
    &&& chained.len() == links.len()
    &&& forall|k: i64| #[trigger]
        groups.contains_key(k) ==> {
            &&& walks.contains_key(k)
            &&& is_walk(links, walks[k])
            &&& links[walks[k][0]].spec_key() == k
            &&& walks[k][0] < upto
            &&& groups[k]@ == ids_at(links, walks[k])
        }
    &&& forall|k: i64, j: int|
        groups.contains_key(k) && 0 <= j < walks[k].len() ==> chained[#[trigger] walks[k][j]]
    &&& forall|x: int|
        0 <= x < links.len() && #[trigger] chained[x] ==> groups.contains_key(links[x].spec_key())
            && walks[links[x].spec_key()].contains(x)
}

/// Every head before `upto` either starts the recorded walk of its parent
/// or starts no walk at all.
#[verifier::opaque]
pub open spec fn heads_settled(
    links: Seq<BlockLink>,
    groups: Map<i64, Vec<i64>>,
    walks: Map<i64, Seq<int>>,
    upto: int,
) -> bool {
    forall|h: int|
        0 <= h < upto && #[trigger] is_head(links, h) ==> (groups.contains_key(links[h].spec_key())
            && walks[links[h].spec_key()][0] == h) || forall|s: Seq<int>|
            !(is_walk(links, s) && s[0] == h)
}

/// Reads the ids off a walk and flags its links.
pub(crate) fn record_walk(
    links: &Vec<BlockLink>,
    walk: &Vec<usize>,
    chained: &mut Vec<bool>,
) -> (ids: Vec<i64>)
    requires
        old(chained)@.len() == links@.len(),
        forall|k: int| 0 <= k < walk@.len() ==> #[trigger] walk@[k] < links@.len(),
    ensures
        final(chained)@.len() == links@.len(),
        ids@ == ids_at(links@, places(walk@)),
        forall|x: int|
            0 <= x < links@.len() ==> (#[trigger] final(chained)@[x] <==> old(chained)@[x]
                || places(walk@).contains(x)),
{
    let mut ids: Vec<i64> = Vec::new();
    let mut k: usize = 0;
    while k < walk.len()
        invariant
            k <= walk@.len(),
            chained@.len() == links@.len(),
            forall|j: int| 0 <= j < walk@.len() ==> #[trigger] walk@[j] < links@.len(),
            ids@.len() == k,
            forall|j: int| 0 <= j < k ==> #[trigger] ids@[j] == links@[walk@[j] as int].id,
            forall|x: int|
                0 <= x < links@.len() ==> (#[trigger] chained@[x] <==> old(chained)@[x] || exists|
                    j: int,
                |
                    0 <= j < k && walk@[j] == x),
        decreases walk@.len() - k,
    {
        let place = walk[k];
        ids.push(links[place].id);
        chained.set(place, true);
        k = k + 1;
    }
    proof {
        assert(ids@ =~= ids_at(links@, places(walk@)));
        assert forall|x: int| 0 <= x < links@.len() implies (#[trigger] chained@[x] <==> old(
            chained,
        )@[x] || places(walk@).contains(x)) by {
            if places(walk@).contains(x) {
                let j = choose|j: int| 0 <= j < places(walk@).len() && places(walk@)[j] == x;
                assert(walk@[j] == x);
            }
            if chained@[x] && !old(chained)@[x] {
                let j = choose|j: int| 0 <= j < k && walk@[j] == x;
                assert(places(walk@)[j] == x);
            }
        }
    }
    ids
}

/// Once every head is settled, the flags tell which links lie on a walk.
proof fn lemma_flags_exact(
    links: Seq<BlockLink>,
    groups: Map<i64, Vec<i64>>,
    chained: Seq<bool>,
    walks: Map<i64, Seq<int>>,
)
    requires
        recorded(links, groups, chained, walks, links.len() as int),
        heads_settled(links, groups, walks, links.len() as int),
    ensures
        forall|x: int| 0 <= x < links.len() ==> (#[trigger] chained[x] <==> on_chain(links, x)),
{
    reveal(recorded);
    reveal(heads_settled);
    assert forall|x: int| 0 <= x < links.len() implies (#[trigger] chained[x] <==> on_chain(
        links,
        x,
    )) by {
        if chained[x] {
            let w = walks[links[x].spec_key()];
            assert(is_walk(links, w) && w.contains(x));
        }
        if on_chain(links, x) {
            let s = choose|s: Seq<int>| is_walk(links, s) && #[trigger] s.contains(x);
            let h = s[0];
            assert(is_head(links, h));
            let k = links[h].spec_key();
            assert(groups.contains_key(k) && walks[k][0] == h);
            lemma_walks_agree(links, s, walks[k]);
            let j = choose|j: int| 0 <= j < s.len() && s[j] == x;
            assert(chained[walks[k][j]]);
        }
    }
}

/// Nothing is marked or recorded before the first link.
proof fn lemma_chains_start(links: Seq<BlockLink>, flags: Seq<bool>)
    requires
        flags.len() == links.len(),
        forall|j: int| 0 <= j < flags.len() ==> !(#[trigger] flags[j]),
    ensures
        marked_before(links, flags, 0),
        recorded(links, Map::<i64, Vec<i64>>::empty(), flags, Map::<i64, Seq<int>>::empty(), 0),
        heads_settled(links, Map::<i64, Vec<i64>>::empty(), Map::<i64, Seq<int>>::empty(), 0),
{
    reveal(marked_before);
    reveal(recorded);
    reveal(heads_settled);
}

/// The marks after the walk from the head at `r` are marks before `r + 1`.
proof fn lemma_marked_step(links: Seq<BlockLink>, before: Seq<bool>, after: Seq<bool>, r: int)
    requires
        0 <= r < links.len(),
        is_head(links, r),
        marked_before(links, before, r),
        before.len() == links.len(),
        after.len() == links.len(),
        forall|x: int|
            0 <= x < links.len() && #[trigger] after[x] ==> before[x] || links[x].spec_key()
                == links[r].spec_key(),
    ensures
        marked_before(links, after, r + 1),
{
    reveal(marked_before);
    assert forall|x: int| 0 <= x < links.len() && #[trigger] after[x] implies exists|h: int|
        0 <= h < r + 1 && is_head(links, h) && #[trigger] links[h].spec_key()
            == links[x].spec_key() by {
        if before[x] {
            let h = choose|h: int|
                0 <= h < r && is_head(links, h) && #[trigger] links[h].spec_key()
                    == links[x].spec_key();
            assert(0 <= h < r + 1 && is_head(links, h) && links[h].spec_key()
                == links[x].spec_key());
        } else {
            assert(links[r].spec_key() == links[x].spec_key());
        }
    }
}

/// A link that is no head, or a head that starts no walk, settles nothing.
proof fn lemma_skip_step(
    links: Seq<BlockLink>,
    groups: Map<i64, Vec<i64>>,
    chained: Seq<bool>,
    walks: Map<i64, Seq<int>>,
    placed: Seq<bool>,
    r: int,
)
    requires
        0 <= r < links.len(),
        recorded(links, groups, chained, walks, r),
        heads_settled(links, groups, walks, r),
        marked_before(links, placed, r),
        !is_head(links, r) || forall|s: Seq<int>| !(is_walk(links, s) && s[0] == r),
    ensures
        recorded(links, groups, chained, walks, r + 1),
        heads_settled(links, groups, walks, r + 1),
        !is_head(links, r) ==> marked_before(links, placed, r + 1),
{
    reveal(recorded);
    reveal(heads_settled);
    reveal(marked_before);
    assert forall|x: int| 0 <= x < links.len() && #[trigger] placed[x] implies exists|h: int|
        0 <= h < r + 1 && is_head(links, h) && #[trigger] links[h].spec_key()
            == links[x].spec_key() by {
        let h = choose|h: int|
            0 <= h < r && is_head(links, h) && #[trigger] links[h].spec_key()
                == links[x].spec_key();
        assert(0 <= h < r + 1 && is_head(links, h) && links[h].spec_key() == links[x].spec_key());
    }
}

/// The parent of the head at `r` has no recorded walk yet.
proof fn lemma_group_fresh(
    links: Seq<BlockLink>,
    groups: Map<i64, Vec<i64>>,
    chained: Seq<bool>,
    walks: Map<i64, Seq<int>>,
    r: int,
)
    requires
        0 <= r < links.len(),
        is_head(links, r),
        single_heads(links),
        recorded(links, groups, chained, walks, r),
    ensures
        !groups.contains_key(links[r].spec_key()),
{
    reveal(recorded);
    reveal(single_heads);
    let key = links[r].spec_key();
    if groups.contains_key(key) {
        let h = walks[key][0];
        assert(links[h].spec_key() == links[r].spec_key());
        assert(second_head(links, r));
    }
}

/// Recording the walk from the head at `r` settles that head.
proof fn lemma_record_step(
    links: Seq<BlockLink>,
    groups: Map<i64, Vec<i64>>,
    chained: Seq<bool>,
    walks: Map<i64, Seq<int>>,
    r: int,
    ids: Vec<i64>,
    path: Seq<int>,
    flagged: Seq<bool>,
)
    requires
        0 <= r < links.len(),
        single_heads(links),
        recorded(links, groups, chained, walks, r),
        heads_settled(links, groups, walks, r),
        !groups.contains_key(links[r].spec_key()),
        is_walk(links, path),
        path[0] == r,
        ids@ == ids_at(links, path),
        flagged.len() == links.len(),
        forall|x: int|
            0 <= x < links.len() ==> (#[trigger] flagged[x] <==> chained[x] || path.contains(x)),
    ensures
        recorded(
            links,
            groups.insert(links[r].spec_key(), ids),
            flagged,
            walks.insert(links[r].spec_key(), path),
            r + 1,
        ),
        heads_settled(
            links,
            groups.insert(links[r].spec_key(), ids),
            walks.insert(links[r].spec_key(), path),
            r + 1,
        ),
{
    reveal(recorded);
    reveal(heads_settled);
    reveal(single_heads);
    let key = links[r].spec_key();
    let groups2 = groups.insert(key, ids);
    let walks2 = walks.insert(key, path);
    assert forall|x: int|
        0 <= x < links.len() && #[trigger] flagged[x] implies groups2.contains_key(
        links[x].spec_key(),
    ) && walks2[links[x].spec_key()].contains(x) by {
        if path.contains(x) {
            let j = choose|j: int| 0 <= j < path.len() && path[j] == x;
            lemma_path_key(links, path, j);
        } else {
            assert(chained[x]);
            assert(groups.contains_key(links[x].spec_key()));
        }
    }
    assert forall|k: i64, j: int|
        groups2.contains_key(k) && 0 <= j < walks2[k].len() implies flagged[
        #[trigger] walks2[k][j]
    ] by {
        if k == key {
            assert(path.contains(path[j]));
        } else {
            assert(groups.contains_key(k));
            assert(chained[walks[k][j]]);
            assert(0 <= walks[k][j] < links.len());
        }
    }
    assert forall|h: int| 0 <= h < r + 1 && #[trigger] is_head(links, h) implies (
    groups2.contains_key(links[h].spec_key()) && walks2[links[h].spec_key()][0] == h) || forall|
        s: Seq<int>,
    |
        !(is_walk(links, s) && s[0] == h) by {
        if h < r {
            if links[h].spec_key() == key {
                assert(second_head(links, r));
            }
        }
    }
}

/// Walks the sibling chain of every parent. Returns the ordered child ids
/// per parent for the walks that stop, and a flag for each link that lies
/// on such a walk.
pub(crate) fn chain_groups(
    links: &Vec<BlockLink>,
    index: &HashMap<i64, usize>,
    followers: &Vec<bool>,
) -> (out: (HashMap<i64, Vec<i64>>, Vec<bool>, Ghost<Map<i64, Seq<int>>>))
    requires
        well_formed(links@),
        indexes(index@, links@),
        single_heads(links@),
        flags_followers(links@, followers@),
    ensures
        out.1@.len() == links@.len(),
        recorded(links@, out.0@, out.1@, out.2@, links@.len() as int),
        forall|x: int|
            0 <= x < links@.len() ==> (#[trigger] out.1@[x] <==> on_chain(links@, x)),
{
    let n = links.len();
    let mut groups: HashMap<i64, Vec<i64>> = HashMap::new();
    let ghost mut walks: Map<i64, Seq<int>> = Map::empty();
    let mut placed = unset_flags(n);
    let mut chained = unset_flags(n);
    let mut r: usize = 0;
    proof {
        lemma_chains_start(links@, placed@);
        lemma_chains_start(links@, chained@);
        assert(groups@ =~= Map::<i64, Vec<i64>>::empty());
    }
    while r < n
        invariant
            r <= n,
            n == links@.len(),
            well_formed(links@),
            indexes(index@, links@),
            single_heads(links@),
            flags_followers(links@, followers@),
            placed@.len() == n,
            chained@.len() == n,
            marked_before(links@, placed@, r as int),
            recorded(links@, groups@, chained@, walks, r as int),
            heads_settled(links@, groups@, walks, r as int),
        decreases n - r,
    {
        if !followers[r] {
            let ghost placed_before = placed@;
            let ghost chained_before = chained@;
            match walk_from(links, index, r, &mut placed) {
                Some(walk) => {
                    let key = links[r].key();
                    proof {
                        lemma_group_fresh(links@, groups@, chained@, walks, r as int);
                        assert forall|k: int| 0 <= k < walk@.len() implies #[trigger] walk@[k]
                            < links@.len() by {
                            assert(0 <= places(walk@)[k] < links@.len());
                        }
                    }
                    let ids = record_walk(links, &walk, &mut chained);
                    proof {
                        lemma_record_step(
                            links@,
                            groups@,
                            chained_before,
                            walks,
                            r as int,
                            ids,
                            places(walk@),
                            chained@,
                        );
                        walks = walks.insert(key, places(walk@));
                    }
                    groups.insert(key, ids);
                },
                None => {
                    proof {
                        lemma_skip_step(links@, groups@, chained@, walks, placed_before, r as int);
                    }
                },
            }
            proof {
                lemma_marked_step(links@, placed_before, placed@, r as int);
            }
        } else {
            proof {
                lemma_skip_step(links@, groups@, chained@, walks, placed@, r as int);
            }
        }
        r = r + 1;
    }
    proof {
        lemma_flags_exact(links@, groups@, chained@, walks);
    }
    (groups, chained, Ghost(walks))
}

} // verus!
