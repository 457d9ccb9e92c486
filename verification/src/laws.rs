//! What holds of rebuilding and editing as a whole.

use vstd::prelude::*;
use crate::builder::{describes, first_second_head, lemma_one_report, reports, sibling_order};
use crate::edit_lemmas::{lemma_promoted_children, lemma_sub_contains};
use crate::errors::{MutationError, StructuralIntegrityError};
use crate::links::{
    ids_at, is_head, is_path, is_walk, lemma_walks_agree, on_chain, second_head, successor, valid,
    well_formed,
};
use crate::node::{lemma_find_contains, Outline};
use crate::records::{BlockLink, ROOT_ID};
use crate::round_trip::{
    lemma_described_valid, lemma_describes_own_links, lemma_links_well_formed, lemma_one_tree,
};
use crate::tree::move_verdict;

verus! {

/// The places `cycle` form a sibling cycle: each is followed by the next,
/// and the last by the first.
pub open spec fn is_cycle(links: Seq<BlockLink>, cycle: Seq<int>) -> bool {
    &&& cycle.len() >= 1
    &&& forall|k: int| 0 <= k < cycle.len() ==> 0 <= #[trigger] cycle[k] < links.len()
    &&& forall|k: int|
        0 <= k < cycle.len() ==> #[trigger] successor(links, cycle[k]) == Some(
            cycle[if k + 1 < cycle.len() {
                k + 1
            } else {
                0
            }],
        )
}

/// Links with faults describe no tree, and the fault that is reported is
/// the only one that can be.
pub proof fn law_one_report(
    links: Seq<BlockLink>,
    ea: StructuralIntegrityError,
    eb: StructuralIntegrityError,
)
    requires
        reports(links, ea),
        reports(links, eb),
    ensures
        ea == eb,
        !valid(links),
{
    lemma_one_report(links, ea, eb);
}

/// A path that enters a sibling cycle stays on it.
proof fn lemma_stays_on_cycle(
    links: Seq<BlockLink>,
    cycle: Seq<int>,
    s: Seq<int>,
    m: int,
    k: int,
)
    requires
        is_cycle(links, cycle),
        is_path(links, s),
        0 <= m <= k < s.len(),
        cycle.contains(s[m]),
    ensures
        cycle.contains(s[k]),
    decreases k - m,
{
    if k > m {
        lemma_stays_on_cycle(links, cycle, s, m, k - 1);
        let j = choose|j: int| 0 <= j < cycle.len() && cycle[j] == s[k - 1];
        let next = if j + 1 < cycle.len() {
            j + 1
        } else {
            0
        };
        assert(successor(links, cycle[j]) == Some(cycle[next]));
        assert(successor(links, s[k - 1]) == Some(s[k - 1 + 1]));
        assert(cycle[next] == s[k]);
    }
}

/// No link of a sibling cycle lies on a sibling walk.
proof fn lemma_cycle_off_chain(links: Seq<BlockLink>, cycle: Seq<int>)
    requires
        is_cycle(links, cycle),
    ensures
        !on_chain(links, cycle[0]),
{
    let at = cycle[0];
    if on_chain(links, at) {
        let s = choose|s: Seq<int>| is_walk(links, s) && #[trigger] s.contains(at);
        let m = choose|m: int| 0 <= m < s.len() && s[m] == at;
        assert(cycle.contains(s[m]));
        lemma_stays_on_cycle(links, cycle, s, m, s.len() - 1);
        let j = choose|j: int| 0 <= j < cycle.len() && cycle[j] == s[s.len() - 1];
        assert(successor(links, cycle[j]) is Some);
    }
}

/// Cycle rejection: links in which some siblings form a cycle, of any
/// length from one on, describe no tree. Unless a parent has two heads,
/// which is reported first, the fault reported is `CycleDetected`.
pub proof fn law_cycle_rejected(
    links: Seq<BlockLink>,
    cycle: Seq<int>,
    e: StructuralIntegrityError,
)
    requires
        is_cycle(links, cycle),
    ensures
        !valid(links),
        (forall|i: int| 0 <= i < links.len() ==> !second_head(links, i)) && reports(links, e)
            ==> e is CycleDetected,
{
    lemma_cycle_off_chain(links, cycle);
    assert(0 <= cycle[0] < links.len());
    if reports(links, e) {
        match e {
            StructuralIntegrityError::MultipleHeads(p) => {
                let i = choose|i: int| #[trigger]
                    first_second_head(links, i) && links[i].spec_key() == p;
            },
            _ => {},
        }
    }
}

/// Multiple-heads rejection: links in which two children of one parent are
/// both heads describe no tree, and the fault reported is `MultipleHeads`.
pub proof fn law_multiple_heads_rejected(
    links: Seq<BlockLink>,
    a: int,
    b: int,
    e: StructuralIntegrityError,
)
    requires
        0 <= a < links.len(),
        0 <= b < links.len(),
        a != b,
        is_head(links, a),
        is_head(links, b),
        links[a].spec_key() == links[b].spec_key(),
    ensures
        !valid(links),
        reports(links, e) ==> e is MultipleHeads,
{
    if a < b {
        assert(second_head(links, b));
    } else {
        assert(second_head(links, a));
    }
}

/// Move-under-descendant rejection: a move of a block under itself or
/// under a block below it is refused with `CycleRejected`. (A refused move
/// changes nothing: see `move_outcome`.)
pub proof fn law_move_under_descendant(t: Outline, block: i64, target: i64, index: int)
    requires
        block != ROOT_ID,
        t.within(target, block),
    ensures
        move_verdict(t, block, target, index) == Err::<(), MutationError>(
            MutationError::CycleRejected,
        ),
{
    lemma_find_contains(t, block);
    lemma_sub_contains(t, block, target);
}

/// Promote-on-remove: removing a block while keeping its children puts
/// them where the block stood among the children of its former parent, in
/// their order; the siblings before and after stay as they were.
pub proof fn law_promote_on_remove(t: Outline, block: i64, parent: i64, k: int)
    requires
        t.distinct(),
        0 <= k < t.children_of(parent).len(),
        t.children_of(parent)[k] == block,
    ensures
        t.promoted(block).children_of(parent) == t.children_of(parent).take(k) + t.children_of(
            block,
        ) + t.children_of(parent).skip(k + 1),
{
    lemma_promoted_children(t, block, parent, k);
}

/// Round trip: the links of a tree under the page root are well formed and
/// valid, so that rebuilding from them succeeds, and any tree that they
/// describe, which is what rebuilding returns, is the tree that was
/// serialised, in shape and child order.
pub proof fn law_round_trip(t: Outline)
    requires
        t.id == ROOT_ID,
        t.distinct(),
    ensures
        well_formed(t.links()),
        valid(t.links()),
        describes(t, t.links()),
        forall|rebuilt: Outline| #[trigger] describes(rebuilt, t.links()) ==> rebuilt == t,
{
    lemma_links_well_formed(t);
    lemma_describes_own_links(t);
    lemma_described_valid(t, t.links());
    assert forall|rebuilt: Outline| #[trigger] describes(rebuilt, t.links()) implies rebuilt
        == t by {
        lemma_one_tree(t, rebuilt, t.links());
    }
}

/// Order fidelity: in the tree that well-formed links describe, the
/// children of every parent stand in the order of the sibling walk that
/// starts at the parent's head.
pub proof fn law_order_fidelity(t: Outline, links: Seq<BlockLink>, parent: i64, walk: Seq<int>)
    requires
        well_formed(links),
        describes(t, links),
        is_walk(links, walk),
        links[walk[0]].spec_key() == parent,
    ensures
        t.children_of(parent) == ids_at(links, walk),
{
    lemma_described_valid(t, links);
    let order = t.children_of(parent);
    assert(sibling_order(links, parent, order));
    assert(0 <= walk[0] < links.len());
    let w = choose|w: Seq<int>| #[trigger]
        is_walk(links, w) && links[w[0]].spec_key() == parent && order == ids_at(links, w);
    assert(0 <= w[0] < links.len());
    if w[0] < walk[0] {
        assert(second_head(links, walk[0]));
    } else if walk[0] < w[0] {
        assert(second_head(links, w[0]));
    }
    lemma_walks_agree(links, w, walk);
}

/// Links describe at most one tree.
pub proof fn law_one_tree(t: Outline, u: Outline, links: Seq<BlockLink>)
    requires
        well_formed(links),
        describes(t, links),
        describes(u, links),
    ensures
        t == u,
{
    lemma_one_tree(t, u, links);
}

} // verus!
