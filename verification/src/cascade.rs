//! Cascade expansion: growing a selected entity set to include every
//! transitive descendant.
//!
//! The recursive command variants follow child links from each selected
//! entity. Expansion is an explicit worklist with a seen-set, never native
//! recursion, so hierarchy depth cannot exhaust the call stack and shared
//! ancestry or cycles among child links cannot loop or duplicate work. The
//! removal set is characterised by `cascade_member`: the entities reachable
//! from a root set over live child links.

use vstd::prelude::*;

use crate::world::{Entity, World};

verus! {

/// A live child link from slot `i` to slot `j`: slot `i` is live and one
/// of its child entries is a live handle naming slot `j`.
pub open spec fn child_link(w: World, i: int, j: int) -> bool {
    &&& w.live_at(i)
    &&& exists|k: int|
        0 <= k < w.children_at(i).len() && w.owns(#[trigger] w.children_at(i)[k])
            && w.children_at(i)[k].index == j
}

/// `p` is a descent path in `w`: consecutive elements are joined by live
/// child links.
pub open spec fn is_chain(w: World, p: Seq<int>) -> bool
    decreases p.len(),
{
    p.len() <= 1 || (child_link(w, p[0], p[1]) && is_chain(w, p.drop_first()))
}

/// Slot `j` is in the cascade of the root set `roots`: some descent path
/// leads from a root to it. Roots themselves are members, by the
/// one-element path.
pub open spec fn cascade_member(w: World, roots: Set<int>, j: int) -> bool {
    exists|p: Seq<int>| #[trigger]
        is_chain(w, p) && p.len() >= 1 && roots.contains(p[0]) && p.last() == j
}

/// Every root is a member of its own cascade.
pub proof fn lemma_root_member(w: World, roots: Set<int>, i: int)
    requires
        roots.contains(i),
    ensures
        cascade_member(w, roots, i),
{
    let p: Seq<int> = seq![i];
    assert(is_chain(w, p));
    assert(p.last() == i);
}

/// A descent path extended along one more live child link is a descent
/// path.
pub proof fn lemma_chain_push(w: World, p: Seq<int>, j: int)
    requires
        is_chain(w, p),
        p.len() >= 1,
        child_link(w, p.last(), j),
    ensures
        is_chain(w, p.push(j)),
    decreases p.len(),
{
    if p.len() == 1 {
        assert(p.push(j).drop_first() =~= seq![j]);
        assert(is_chain(w, p.push(j).drop_first()));
    } else {
        lemma_chain_push(w, p.drop_first(), j);
        assert(p.push(j).drop_first() =~= p.drop_first().push(j));
    }
}

/// The cascade is closed under live child links: a child of a member is a
/// member.
pub proof fn lemma_member_step(w: World, roots: Set<int>, i: int, j: int)
    requires
        cascade_member(w, roots, i),
        child_link(w, i, j),
    ensures
        cascade_member(w, roots, j),
{
    let p = choose|p: Seq<int>| #[trigger]
        is_chain(w, p) && p.len() >= 1 && roots.contains(p[0]) && p.last() == i;
    lemma_chain_push(w, p, j);
    let q = p.push(j);
    assert(is_chain(w, q) && q.len() >= 1 && roots.contains(q[0]) && q.last() == j);
}

/// A descent path that starts inside a set closed under live child links
/// ends inside it.
proof fn lemma_chain_in_closed(w: World, seen: Seq<bool>, p: Seq<int>)
    requires
        is_chain(w, p),
        p.len() >= 1,
        0 <= p[0] < seen.len(),
        seen[p[0]],
        forall|a: int, b: int|
            0 <= a < seen.len() && seen[a] && #[trigger] child_link(w, a, b) ==> 0 <= b
                < seen.len() && seen[b],
    ensures
        0 <= p.last() < seen.len() && seen[p.last()],
    decreases p.len(),
{
    if p.len() > 1 {
        assert(child_link(w, p[0], p[1]));
        lemma_chain_in_closed(w, seen, p.drop_first());
    }
}

/// Cascades read only liveness, generations and child lists: two worlds
/// that agree on those agree on every live child link.
pub open spec fn same_topology(w0: World, w1: World) -> bool {
    &&& w1.num_slots() == w0.num_slots()
    &&& forall|i: int|
        0 <= i < w0.num_slots() ==> (w1.slots@[i].alive == w0.slots@[i].alive
            && w1.slots@[i].generation == w0.slots@[i].generation && w1.slots@[i].children@
            == w0.slots@[i].children@)
}

/// Two worlds with the same topology have the same live child links.
pub proof fn lemma_link_same_topology(w0: World, w1: World, i: int, j: int)
    requires
        same_topology(w0, w1),
    ensures
        child_link(w1, i, j) == child_link(w0, i, j),
{
    if child_link(w0, i, j) {
        let k = choose|k: int|
            0 <= k < w0.children_at(i).len() && w0.owns(#[trigger] w0.children_at(i)[k])
                && w0.children_at(i)[k].index == j;
        assert(w1.owns(w1.children_at(i)[k]) && w1.children_at(i)[k].index == j);
    }
    if child_link(w1, i, j) {
        let k = choose|k: int|
            0 <= k < w1.children_at(i).len() && w1.owns(#[trigger] w1.children_at(i)[k])
                && w1.children_at(i)[k].index == j;
        assert(w0.owns(w0.children_at(i)[k]) && w0.children_at(i)[k].index == j);
    }
}

/// Two worlds with the same topology carry the same descent paths.
proof fn lemma_chain_same_topology(w0: World, w1: World, p: Seq<int>)
    requires
        same_topology(w0, w1),
    ensures
        is_chain(w1, p) == is_chain(w0, p),
    decreases p.len(),
{
    if p.len() > 1 {
        lemma_link_same_topology(w0, w1, p[0], p[1]);
        lemma_chain_same_topology(w0, w1, p.drop_first());
    }
}

/// Two worlds with the same topology have the same cascades.
pub proof fn lemma_member_same_topology(w0: World, w1: World, roots: Set<int>, j: int)
    requires
        same_topology(w0, w1),
    ensures
        cascade_member(w1, roots, j) == cascade_member(w0, roots, j),
{
    if cascade_member(w0, roots, j) {
        let p = choose|p: Seq<int>| #[trigger]
            is_chain(w0, p) && p.len() >= 1 && roots.contains(p[0]) && p.last() == j;
        lemma_chain_same_topology(w0, w1, p);
        assert(is_chain(w1, p) && p.len() >= 1 && roots.contains(p[0]) && p.last() == j);
    }
    if cascade_member(w1, roots, j) {
        let p = choose|p: Seq<int>| #[trigger]
            is_chain(w1, p) && p.len() >= 1 && roots.contains(p[0]) && p.last() == j;
        lemma_chain_same_topology(w0, w1, p);
        assert(is_chain(w0, p) && p.len() >= 1 && roots.contains(p[0]) && p.last() == j);
    }
}

/// The root set named by a list of scanned entity handles: the slots of
/// the handles that are live.
pub open spec fn live_handle_set(w: World, seeds: Seq<Entity>) -> Set<int> {
    Set::new(
        |i: int|
            exists|k: int|
                0 <= k < seeds.len() && w.owns(#[trigger] seeds[k]) && seeds[k].index == i,
    )
}

/// Number of false entries in a seen-set; the traversal's termination
/// measure.
spec fn count_false(s: Seq<bool>) -> nat
    decreases s.len(),
{
    if s.len() == 0 {
        0
    } else {
        count_false(s.drop_last()) + if s.last() {
            0nat
        } else {
            1nat
        }
    }
}

/// Marking one unmarked entry reduces the number of unmarked entries by
/// one.
proof fn lemma_count_false_update(s: Seq<bool>, i: int)
    requires
        0 <= i < s.len(),
        !s[i],
    ensures
        count_false(s.update(i, true)) == count_false(s) - 1,
    decreases s.len(),
{
    let t = s.update(i, true);
    if i == s.len() - 1 {
        assert(t.drop_last() =~= s.drop_last());
    } else {
        assert(t.drop_last() =~= s.drop_last().update(i, true));
        lemma_count_false_update(s.drop_last(), i);
    }
}

/// An entry of `work` that is a live handle for slot `j`.
spec fn queued(w: World, work: Seq<Entity>, j: int) -> bool {
    exists|k: int| 0 <= k < work.len() && w.owns(#[trigger] work[k]) && work[k].index == j
}

/// Append every entry of `extra` to `work`.
fn push_all(work: &mut Vec<Entity>, extra: &Vec<Entity>)
    ensures
        final(work)@ == old(work)@ + extra@,
{
    let mut t: usize = 0;
    while t < extra.len()
        invariant
            t <= extra@.len(),
            work@ == old(work)@ + extra@.subrange(0, t as int),
        decreases extra@.len() - t,
    {
        work.push(extra[t]);
        proof {
            assert(work@ =~= old(work)@ + extra@.subrange(0, t + 1));
        }
        t = t + 1;
    }
    proof {
        assert(work@ =~= old(work)@ + extra@);
    }
}

/// Expand a scanned entity list to its full cascade: every entity
/// reachable from a live seed over live child links, each exactly once.
/// Stale seeds and stale child links are skipped; a seen-set guards
/// against shared ancestry and cycles.
pub fn expand(world: &World, seeds: &Vec<Entity>) -> (removal: Vec<Entity>)
    ensures
        forall|k: int| 0 <= k < removal@.len() ==> world.owns(#[trigger] removal@[k]),
        forall|k: int|
            0 <= k < removal@.len() ==> cascade_member(
                *world,
                live_handle_set(*world, seeds@),
                (#[trigger] removal@[k]).index as int,
            ),
        forall|j: int|
            #[trigger] cascade_member(*world, live_handle_set(*world, seeds@), j) ==> exists|k: int|
                0 <= k < removal@.len() && (#[trigger] removal@[k]).index as int == j,
        forall|k1: int, k2: int|
            0 <= k1 < k2 < removal@.len() ==> removal@[k1].index != removal@[k2].index,
{
    let ghost roots = live_handle_set(*world, seeds@);
    let n = world.slot_count();

    let mut seen: Vec<bool> = Vec::new();
    let mut s: usize = 0;
    while s < n
        invariant
            s <= n,
            seen@.len() == s,
            forall|i: int| 0 <= i < s ==> !seen@[i],
        decreases n - s,
    {
        seen.push(false);
        s = s + 1;
    }

    let mut work: Vec<Entity> = Vec::new();
    let mut t: usize = 0;
    while t < seeds.len()
        invariant
            t <= seeds@.len(),
            work@ == seeds@.subrange(0, t as int),
        decreases seeds@.len() - t,
    {
        work.push(seeds[t]);
        proof {
            assert(work@ =~= seeds@.subrange(0, t + 1));
        }
        t = t + 1;
    }
    proof {
        assert(work@ =~= seeds@);
    }

    let mut removal: Vec<Entity> = Vec::new();

    proof {
        assert forall|k: int|
            0 <= k < work@.len() && world.owns(work@[k]) implies cascade_member(
            *world,
            roots,
            work@[k].index as int,
        ) by {
            assert(roots.contains(work@[k].index as int));
            lemma_root_member(*world, roots, work@[k].index as int);
        }
        assert forall|i: int| roots.contains(i) implies 0 <= i < seen@.len() && (seen@[i]
            || queued(*world, work@, i)) by {
            let k = choose|k: int|
                0 <= k < seeds@.len() && world.owns(#[trigger] seeds@[k]) && seeds@[k].index == i;
            assert(world.owns(work@[k]) && work@[k].index == i);
        }
    }

    while work.len() > 0
        invariant
            seen@.len() == world.num_slots(),
            forall|k: int|
                0 <= k < work@.len() && world.owns(#[trigger] work@[k]) ==> cascade_member(
                    *world,
                    roots,
                    work@[k].index as int,
                ),
            forall|i: int|
                0 <= i < seen@.len() && #[trigger] seen@[i] ==> cascade_member(*world, roots, i),
            forall|k: int|
                0 <= k < removal@.len() ==> world.owns(#[trigger] removal@[k])
                    && seen@[removal@[k].index as int],
            forall|i: int|
                0 <= i < seen@.len() && #[trigger] seen@[i] ==> exists|k: int|
                    0 <= k < removal@.len() && (#[trigger] removal@[k]).index as int == i,
            forall|k1: int, k2: int|
                0 <= k1 < k2 < removal@.len() ==> removal@[k1].index != removal@[k2].index,
            forall|a: int, b: int|
                0 <= a < seen@.len() && seen@[a] && #[trigger] child_link(*world, a, b) ==> 0 <= b
                    < seen@.len() && (seen@[b] || queued(*world, work@, b)),
            forall|i: int|
                #[trigger] roots.contains(i) ==> 0 <= i < seen@.len() && (seen@[i] || queued(
                    *world,
                    work@,
                    i,
                )),
        decreases count_false(seen@), work@.len(),
    {
        let ghost work0 = work@;
        let e: Entity = match work.pop() {
            Some(x) => x,
            None => Entity { index: 0, generation: 0 },
        };
        proof {
            assert(e == work0[work0.len() - 1]);
            assert(work@ == work0.subrange(0, work0.len() - 1));
        }
        let live = world.alive(e);
        let fresh = live && !seen[e.index];
        if fresh {
            let idx = e.index;
            let ghost seen0 = seen@;
            let ghost removal0 = removal@;
            seen.set(idx, true);
            removal.push(e);
            proof {
                lemma_count_false_update(seen0, idx as int);
                // the popped handle was a sound work entry
                assert(world.owns(work0[work0.len() - 1]));
                assert(cascade_member(*world, roots, idx as int));
                // every seen slot is recorded in the removal list
                assert forall|i: int| 0 <= i < seen@.len() && seen@[i] implies exists|k: int|
                    0 <= k < removal@.len() && (#[trigger] removal@[k]).index as int == i by {
                    if i == idx as int {
                        assert(removal@[removal@.len() - 1].index as int == i);
                    } else {
                        assert(seen0[i]);
                        let k = choose|k: int|
                            0 <= k < removal0.len() && (#[trigger] removal0[k]).index as int == i;
                        assert(removal@[k].index as int == i);
                    }
                }
            }
            let ghost work1 = work@;
            push_all(&mut work, &world.slots[idx].children);
            proof {
                // every live child entry of idx is now queued, and is a member
                assert forall|k: int|
                    0 <= k < work@.len() && world.owns(work@[k]) implies cascade_member(
                    *world,
                    roots,
                    work@[k].index as int,
                ) by {
                    if k < work1.len() {
                        assert(world.owns(work0[k]) && work0[k] == work@[k]);
                    } else {
                        let c = work@[k];
                        assert(c == world.children_at(idx as int)[k - work1.len()]);
                        assert(child_link(*world, idx as int, c.index as int));
                        lemma_member_step(*world, roots, idx as int, c.index as int);
                    }
                }
                // closure: old queued entries persist; links from idx are queued
                assert forall|a: int, b: int|
                    0 <= a < seen@.len() && seen@[a] && #[trigger] child_link(*world, a, b) implies 0
                    <= b < seen@.len() && (seen@[b] || queued(*world, work@, b)) by {
                    if a == idx as int {
                        let k = choose|k: int|
                            0 <= k < world.children_at(a).len() && world.owns(
                                #[trigger] world.children_at(a)[k],
                            ) && world.children_at(a)[k].index == b;
                        assert(world.owns(world.children_at(a)[k]));
                        assert(0 <= b < seen@.len());
                        assert(work@[work1.len() + k] == world.children_at(a)[k]);
                        assert(queued(*world, work@, b));
                    } else {
                        assert(seen0[a] && child_link(*world, a, b));
                        if !seen0[b] {
                            let k = choose|k: int|
                                0 <= k < work0.len() && world.owns(#[trigger] work0[k])
                                    && work0[k].index == b;
                            if k < work0.len() - 1 {
                                assert(world.owns(work@[k]) && work@[k].index == b);
                            } else {
                                assert(work0[k] == e);
                                assert(b == idx as int);
                            }
                        }
                    }
                }
                // roots stay covered
                assert forall|i: int| #[trigger]
                    roots.contains(i) implies 0 <= i < seen@.len() && (seen@[i] || queued(
                    *world,
                    work@,
                    i,
                )) by {
                    if !seen0[i] {
                        let k = choose|k: int|
                            0 <= k < work0.len() && world.owns(#[trigger] work0[k])
                                && work0[k].index == i;
                        if k < work0.len() - 1 {
                            assert(world.owns(work@[k]) && work@[k].index == i);
                        } else {
                            assert(i == idx as int);
                        }
                    }
                }
            }
        } else {
            proof {
                // the popped entry was stale or already seen; witnesses persist
                assert forall|a: int, b: int|
                    0 <= a < seen@.len() && seen@[a] && #[trigger] child_link(*world, a, b) implies 0
                    <= b < seen@.len() && (seen@[b] || queued(*world, work@, b)) by {
                    if !seen@[b] {
                        let k = choose|k: int|
                            0 <= k < work0.len() && world.owns(#[trigger] work0[k])
                                && work0[k].index == b;
                        if k < work0.len() - 1 {
                            assert(world.owns(work@[k]) && work@[k].index == b);
                        } else {
                            assert(world.owns(e) && e.index as int == b);
                            assert(false);
                        }
                    }
                }
                assert forall|i: int| #[trigger]
                    roots.contains(i) implies 0 <= i < seen@.len() && (seen@[i] || queued(
                    *world,
                    work@,
                    i,
                )) by {
                    if !seen@[i] {
                        let k = choose|k: int|
                            0 <= k < work0.len() && world.owns(#[trigger] work0[k])
                                && work0[k].index == i;
                        if k < work0.len() - 1 {
                            assert(world.owns(work@[k]) && work@[k].index == i);
                        } else {
                            assert(world.owns(e) && e.index as int == i);
                            assert(false);
                        }
                    }
                }
            }
        }
    }

    proof {
        // the worklist is empty: the seen-set contains the roots and is
        // closed under live child links, so it contains the whole cascade
        assert forall|j: int| #[trigger]
            cascade_member(*world, roots, j) implies exists|k: int|
            0 <= k < removal@.len() && (#[trigger] removal@[k]).index as int == j by {
            let p = choose|p: Seq<int>| #[trigger]
                is_chain(*world, p) && p.len() >= 1 && roots.contains(p[0]) && p.last() == j;
            assert(seen@[p[0]]);
            lemma_chain_in_closed(*world, seen@, p);
            assert(seen@[j]);
        }
    }
    removal
}

} // verus!
