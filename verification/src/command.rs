//! Deferred lifecycle commands and their application.
//!
//! A command is an immutable snapshot of one bulk operation: despawn every
//! entity a filter selects (optionally with all descendants), strip one
//! component kind from every selected entity, or retain entities by a
//! predicate over one of their components (optionally mutating it, and
//! optionally cascading the despawns). Applying a command runs scan,
//! optional cascade expansion, then the action, holding the scratch buffer
//! for the whole cycle and releasing it empty.

use vstd::prelude::*;

use crate::buffer::{ApplyFault, ScratchBuffer};
use crate::cascade::{cascade_member, expand, lemma_member_same_topology, live_handle_set,
    same_topology};
use crate::filter::Filter;
use crate::predicate::Predicate;
use crate::world::{bumped, ComponentState, Entity, same_shape, slot_despawned, slot_unchanged,
    World, world_unchanged};

verus! {

/// One deferred, queued lifecycle operation: created at enqueue time,
/// applied once at the next synchronization point, then discarded.
pub enum Command {
    /// Despawn every entity the filter selects.
    DespawnAll(Filter),
    /// Despawn every entity the filter selects and all their transitive
    /// descendants, whether or not the descendants match.
    DespawnAllRecursive(Filter),
    /// Detach the component kind from every entity that has it and
    /// matches the filter; the entities stay alive.
    RemoveAll(usize, Filter),
    /// For every entity that has the component and matches the filter,
    /// run the predicate on the component (storing the moved-to value if
    /// `mutate`) and despawn the entity if the predicate says not to keep
    /// it — with all its descendants if `recursive`.
    Retain {
        component: usize,
        predicate: Predicate,
        filter: Filter,
        mutate: bool,
        recursive: bool,
    },
}

impl Command {
    /// Every component kind the command names is one the world knows.
    pub open spec fn wf(self, kinds: int) -> bool {
        match self {
            Command::DespawnAll(f) => f.wf(kinds),
            Command::DespawnAllRecursive(f) => f.wf(kinds),
            Command::RemoveAll(c, f) => (c as int) < kinds && f.wf(kinds),
            Command::Retain { component, filter, .. } => (component as int) < kinds && filter.wf(
                kinds,
            ),
        }
    }
}

/// The set of slots a filter selects.
pub open spec fn match_set(w: World, f: Filter) -> Set<int> {
    Set::new(|i: int| f.matches_at(w, i))
}

/// Slot `i` went from `w0` to `w1` under a despawn of the kill set: a
/// tombstone if selected, untouched otherwise.
pub open spec fn despawned_or_unchanged(w0: World, w1: World, kill: Set<int>, i: int) -> bool {
    if kill.contains(i) {
        slot_despawned(w0, w1, i)
    } else {
        slot_unchanged(w0, w1, i)
    }
}

/// What `DespawnAll` does: exactly the selected entities become
/// tombstones, everything else is untouched.
pub open spec fn despawn_effect(w0: World, f: Filter, w1: World) -> bool {
    &&& same_shape(w0, w1)
    &&& forall|i: int|
        0 <= i < w0.num_slots() ==> #[trigger] despawned_or_unchanged(w0, w1, match_set(w0, f), i)
}

/// The members of the cascade of a root set, as a set.
pub open spec fn cascade_set(w0: World, roots: Set<int>) -> Set<int> {
    Set::new(|j: int| cascade_member(w0, roots, j))
}

/// What `DespawnAllRecursive` does: the selected entities and all their
/// transitive descendants become tombstones, everything else is untouched.
pub open spec fn despawn_recursive_effect(w0: World, f: Filter, w1: World) -> bool {
    &&& same_shape(w0, w1)
    &&& forall|i: int|
        0 <= i < w0.num_slots() ==> #[trigger] despawned_or_unchanged(
            w0,
            w1,
            cascade_set(w0, match_set(w0, f)),
            i,
        )
}

/// Scan the store, pushing a handle for every entity the filter selects.
/// The buffer then holds exactly the selected entities: every entry is a
/// live, matching handle, and every match appears.
fn scan_filter(world: &World, f: &Filter, buffer: &mut ScratchBuffer)
    requires
        world.wf(),
        f.wf(world.component_kinds as int),
        old(buffer).state is Held,
        old(buffer).entries@.len() == 0,
    ensures
        final(buffer).state is Held,
        forall|k: int|
            0 <= k < final(buffer).entries@.len() ==> world.owns(
                #[trigger] final(buffer).entries@[k],
            ) && f.matches_at(*world, final(buffer).entries@[k].index as int),
        forall|j: int|
            0 <= j < world.num_slots() && #[trigger] f.matches_at(*world, j) ==> exists|k: int|
                0 <= k < final(buffer).entries@.len()
                    && (#[trigger] final(buffer).entries@[k]).index as int == j,
{
    let n = world.slot_count();
    let mut i: usize = 0;
    while i < n
        invariant
            world.wf(),
            f.wf(world.component_kinds as int),
            buffer.state is Held,
            i <= n,
            n as int == world.num_slots(),
            forall|k: int|
                0 <= k < buffer.entries@.len() ==> world.owns(#[trigger] buffer.entries@[k])
                    && f.matches_at(*world, buffer.entries@[k].index as int),
            forall|j: int|
                0 <= j < i && #[trigger] f.matches_at(*world, j) ==> exists|k: int|
                    0 <= k < buffer.entries@.len() && (#[trigger] buffer.entries@[k]).index as int
                        == j,
        decreases n - i,
    {
        let ghost entries0 = buffer.entries@;
        if f.matches_entity(world, i) {
            let g = world.generation_index(i);
            buffer.push(Entity { index: i, generation: g });
            proof {
                let es = buffer.entries@;
                assert(world.owns(es[es.len() - 1]));
                assert forall|j: int| 0 <= j < i + 1 && f.matches_at(*world, j) implies exists|k: int|
                    0 <= k < es.len() && (#[trigger] es[k]).index as int == j by {
                    if j < i {
                        let k = choose|k: int|
                            0 <= k < entries0.len() && (#[trigger] entries0[k]).index as int == j;
                        assert(es[k].index as int == j);
                    } else {
                        assert(es[es.len() - 1].index as int == j);
                    }
                }
            }
        }
        i = i + 1;
    }
}

/// Despawn the entity named by every live handle in the list. Stale
/// handles and repeated slots are no-ops: exactly the slots the live
/// handles name become tombstones.
fn despawn_each(world: &mut World, list: &Vec<Entity>)
    requires
        old(world).wf(),
    ensures
        final(world).wf(),
        same_shape(*old(world), *final(world)),
        forall|i: int|
            0 <= i < old(world).num_slots() ==> #[trigger] despawned_or_unchanged(
                *old(world),
                *final(world),
                live_handle_set(*old(world), list@),
                i,
            ),
{
    let ghost w0 = *old(world);
    let mut t: usize = 0;
    while t < list.len()
        invariant
            world.wf(),
            same_shape(w0, *world),
            t <= list@.len(),
            forall|i: int|
                0 <= i < w0.num_slots() ==> #[trigger] despawned_or_unchanged(
                    w0,
                    *world,
                    live_handle_set(w0, list@.subrange(0, t as int)),
                    i,
                ),
        decreases list@.len() - t,
    {
        let ghost prev = *world;
        let ghost kill_t = live_handle_set(w0, list@.subrange(0, t as int));
        let e = list[t];
        world.despawn(e);
        proof {
            let kill_next = live_handle_set(w0, list@.subrange(0, t + 1));
            assert(list@.subrange(0, t + 1) =~= list@.subrange(0, t as int).push(e));
            assert forall|i: int| 0 <= i < w0.num_slots() implies despawned_or_unchanged(
                w0,
                *world,
                kill_next,
                i,
            ) by {
                assert(despawned_or_unchanged(w0, prev, kill_t, i));
                if kill_next.contains(i) {
                    let k = choose|k: int|
                        0 <= k < t + 1 && w0.owns(#[trigger] list@.subrange(0, t + 1)[k])
                            && list@.subrange(0, t + 1)[k].index == i;
                    if k < t {
                        // already killed before this step
                        assert(w0.owns(list@.subrange(0, t as int)[k]));
                        assert(kill_t.contains(i));
                        assert(slot_despawned(w0, prev, i));
                        // the slot is dead, so this step cannot touch it
                        assert(!prev.owns(e) || e.index as int != i);
                        assert(slot_unchanged(prev, *world, i));
                        assert(slot_despawned(w0, *world, i));
                    } else {
                        assert(list@.subrange(0, t + 1)[k] == e);
                        assert(w0.owns(e) && e.index as int == i);
                        if kill_t.contains(i) {
                            assert(slot_despawned(w0, prev, i));
                            assert(!prev.owns(e));
                            assert(slot_unchanged(prev, *world, i));
                            assert(slot_despawned(w0, *world, i));
                        } else {
                            assert(slot_unchanged(w0, prev, i));
                            assert(prev.owns(e));
                            assert(slot_despawned(prev, *world, i));
                            assert(slot_despawned(w0, *world, i));
                        }
                    }
                } else {
                    assert(!kill_t.contains(i)) by {
                        if kill_t.contains(i) {
                            let k = choose|k: int|
                                0 <= k < t && w0.owns(#[trigger] list@.subrange(0, t as int)[k])
                                    && list@.subrange(0, t as int)[k].index == i;
                            assert(w0.owns(list@.subrange(0, t + 1)[k]));
                            assert(kill_next.contains(i));
                        }
                    }
                    assert(slot_unchanged(w0, prev, i));
                    if prev.owns(e) && e.index as int == i {
                        // the handle was live and names this slot, so it
                        // would be in the kill set
                        assert(w0.owns(e));
                        assert(list@.subrange(0, t + 1)[t as int] == e);
                        assert(kill_next.contains(i));
                    }
                    assert(slot_unchanged(prev, *world, i));
                    assert(slot_unchanged(w0, *world, i));
                }
            }
        }
        t = t + 1;
    }
    proof {
        assert(list@.subrange(0, list@.len() as int) =~= list@);
    }
}

/// Apply a `DespawnAll` command: scan, then despawn the scanned set.
fn run_despawn_all(world: &mut World, f: &Filter, buffer: &mut ScratchBuffer)
    requires
        old(world).wf(),
        f.wf(old(world).component_kinds as int),
        old(buffer).state is Held,
        old(buffer).entries@.len() == 0,
    ensures
        final(world).wf(),
        final(buffer).state is Held,
        despawn_effect(*old(world), *f, *final(world)),
{
    let ghost w0 = *old(world);
    scan_filter(world, f, buffer);
    despawn_each(world, &buffer.entries);
    proof {
        let kill = live_handle_set(w0, buffer.entries@);
        let ms = match_set(w0, *f);
        assert forall|i: int| #[trigger] kill.contains(i) implies ms.contains(i) by {
            let k = choose|k: int|
                0 <= k < buffer.entries@.len() && w0.owns(#[trigger] buffer.entries@[k])
                    && buffer.entries@[k].index == i;
            assert(f.matches_at(w0, buffer.entries@[k].index as int));
        }
        assert forall|i: int| #[trigger] ms.contains(i) implies kill.contains(i) by {
            assert(f.matches_at(w0, i));
            let k = choose|k: int|
                0 <= k < buffer.entries@.len() && (#[trigger] buffer.entries@[k]).index as int == i;
            assert(w0.owns(buffer.entries@[k]));
        }
        assert(kill =~= ms);
    }
}

/// Apply a `DespawnAllRecursive` command: scan, expand the scanned set to
/// its full cascade, then despawn the expanded set.
fn run_despawn_all_recursive(world: &mut World, f: &Filter, buffer: &mut ScratchBuffer)
    requires
        old(world).wf(),
        f.wf(old(world).component_kinds as int),
        old(buffer).state is Held,
        old(buffer).entries@.len() == 0,
    ensures
        final(world).wf(),
        final(buffer).state is Held,
        despawn_recursive_effect(*old(world), *f, *final(world)),
{
    let ghost w0 = *old(world);
    scan_filter(world, f, buffer);
    let removal = expand(world, &buffer.entries);
    despawn_each(world, &removal);
    proof {
        let seeds = live_handle_set(w0, buffer.entries@);
        let ms = match_set(w0, *f);
        assert forall|i: int| #[trigger] seeds.contains(i) implies ms.contains(i) by {
            let k = choose|k: int|
                0 <= k < buffer.entries@.len() && w0.owns(#[trigger] buffer.entries@[k])
                    && buffer.entries@[k].index == i;
            assert(f.matches_at(w0, buffer.entries@[k].index as int));
        }
        assert forall|i: int| #[trigger] ms.contains(i) implies seeds.contains(i) by {
            assert(f.matches_at(w0, i));
            let k = choose|k: int|
                0 <= k < buffer.entries@.len() && (#[trigger] buffer.entries@[k]).index as int == i;
            assert(w0.owns(buffer.entries@[k]));
        }
        assert(seeds =~= ms);
        let kill = live_handle_set(w0, removal@);
        let members = cascade_set(w0, ms);
        assert forall|i: int| #[trigger] kill.contains(i) implies members.contains(i) by {
            let k = choose|k: int|
                0 <= k < removal@.len() && w0.owns(#[trigger] removal@[k]) && removal@[k].index
                    == i;
            assert(cascade_member(w0, live_handle_set(w0, buffer.entries@), removal@[k].index as int));
        }
        assert forall|i: int| #[trigger] members.contains(i) implies kill.contains(i) by {
            assert(cascade_member(w0, live_handle_set(w0, buffer.entries@), i));
            let k = choose|k: int|
                0 <= k < removal@.len() && (#[trigger] removal@[k]).index as int == i;
            assert(w0.owns(removal@[k]));
        }
        assert(kill =~= members);
    }
}

/// Slot `i` went from `w0` to `w1` under a component removal targeting
/// the target set: alive, generation and children untouched everywhere,
/// the component cell of kind `c` cleared exactly on the targets.
pub open spec fn removed_or_unchanged(w0: World, w1: World, c: int, targets: Set<int>, i: int) -> bool {
    &&& w1.slots@[i].alive == w0.slots@[i].alive
    &&& w1.slots@[i].generation == w0.slots@[i].generation
    &&& w1.slots@[i].children@ == w0.slots@[i].children@
    &&& w1.slots@[i].components@ == if targets.contains(i) {
        w0.slots@[i].components@.update(c, None)
    } else {
        w0.slots@[i].components@
    }
}

/// The set of slots a `RemoveAll` or `Retain` command targets: live, with
/// the component, and selected by the filter.
pub open spec fn target_set(w0: World, c: int, f: Filter) -> Set<int> {
    Set::new(|i: int| w0.has_at(i, c) && f.matches_at(w0, i))
}

/// What `RemoveAll` does: no entity is spawned or despawned; exactly the
/// targeted entities lose the component, and nothing else moves.
pub open spec fn remove_effect(w0: World, c: int, f: Filter, w1: World) -> bool {
    &&& same_shape(w0, w1)
    &&& forall|i: int|
        0 <= i < w0.num_slots() ==> #[trigger] removed_or_unchanged(
            w0,
            w1,
            c,
            target_set(w0, c, f),
            i,
        )
}

/// Scan the store, pushing a handle for every live entity that has the
/// component of kind `c` and matches the filter.
fn scan_component_filter(world: &World, c: usize, f: &Filter, buffer: &mut ScratchBuffer)
    requires
        world.wf(),
        f.wf(world.component_kinds as int),
        old(buffer).state is Held,
        old(buffer).entries@.len() == 0,
    ensures
        final(buffer).state is Held,
        forall|k: int|
            0 <= k < final(buffer).entries@.len() ==> world.owns(
                #[trigger] final(buffer).entries@[k],
            ) && world.has_at(final(buffer).entries@[k].index as int, c as int) && f.matches_at(
                *world,
                final(buffer).entries@[k].index as int,
            ),
        forall|j: int|
            0 <= j < world.num_slots() && world.has_at(j, c as int) && #[trigger] f.matches_at(
                *world,
                j,
            ) ==> exists|k: int|
                0 <= k < final(buffer).entries@.len()
                    && (#[trigger] final(buffer).entries@[k]).index as int == j,
{
    let n = world.slot_count();
    let mut i: usize = 0;
    while i < n
        invariant
            world.wf(),
            f.wf(world.component_kinds as int),
            buffer.state is Held,
            i <= n,
            n as int == world.num_slots(),
            forall|k: int|
                0 <= k < buffer.entries@.len() ==> world.owns(#[trigger] buffer.entries@[k])
                    && world.has_at(buffer.entries@[k].index as int, c as int) && f.matches_at(
                    *world,
                    buffer.entries@[k].index as int,
                ),
            forall|j: int|
                0 <= j < i && world.has_at(j, c as int) && #[trigger] f.matches_at(*world, j)
                    ==> exists|k: int|
                    0 <= k < buffer.entries@.len() && (#[trigger] buffer.entries@[k]).index as int
                        == j,
        decreases n - i,
    {
        let ghost entries0 = buffer.entries@;
        if world.has_index(i, c) && f.matches_entity(world, i) {
            let g = world.generation_index(i);
            buffer.push(Entity { index: i, generation: g });
            proof {
                let es = buffer.entries@;
                assert(world.owns(es[es.len() - 1]));
                assert forall|j: int|
                    0 <= j < i + 1 && world.has_at(j, c as int) && f.matches_at(
                        *world,
                        j,
                    ) implies exists|k: int|
                    0 <= k < es.len() && (#[trigger] es[k]).index as int == j by {
                    if j < i {
                        let k = choose|k: int|
                            0 <= k < entries0.len() && (#[trigger] entries0[k]).index as int == j;
                        assert(es[k].index as int == j);
                    } else {
                        assert(es[es.len() - 1].index as int == j);
                    }
                }
            }
        }
        i = i + 1;
    }
}

/// Detach the component of kind `c` from the entity named by every live
/// handle in the list. Stale handles and repeated slots are harmless:
/// exactly the slots the live handles name lose the component, and no
/// entity is spawned or despawned.
fn remove_each(world: &mut World, c: usize, list: &Vec<Entity>)
    requires
        old(world).wf(),
        (c as int) < old(world).component_kinds,
    ensures
        final(world).wf(),
        same_shape(*old(world), *final(world)),
        forall|i: int|
            0 <= i < old(world).num_slots() ==> #[trigger] removed_or_unchanged(
                *old(world),
                *final(world),
                c as int,
                live_handle_set(*old(world), list@),
                i,
            ),
{
    let ghost w0 = *old(world);
    let mut t: usize = 0;
    while t < list.len()
        invariant
            w0.wf(),
            world.wf(),
            same_shape(w0, *world),
            (c as int) < w0.component_kinds,
            t <= list@.len(),
            forall|i: int|
                0 <= i < w0.num_slots() ==> #[trigger] removed_or_unchanged(
                    w0,
                    *world,
                    c as int,
                    live_handle_set(w0, list@.subrange(0, t as int)),
                    i,
                ),
        decreases list@.len() - t,
    {
        let ghost prev = *world;
        let ghost hit_t = live_handle_set(w0, list@.subrange(0, t as int));
        let e = list[t];
        world.remove_component(e, c);
        proof {
            let hit_next = live_handle_set(w0, list@.subrange(0, t + 1));
            assert(list@.subrange(0, t + 1) =~= list@.subrange(0, t as int).push(e));
            assert forall|i: int| 0 <= i < w0.num_slots() implies removed_or_unchanged(
                w0,
                *world,
                c as int,
                hit_next,
                i,
            ) by {
                assert(removed_or_unchanged(w0, prev, c as int, hit_t, i));
                assert(w0.slot_wf(i));
                // liveness and generations never move in this loop, so a
                // handle is live now exactly when it was live in `w0`
                assert(prev.owns(e) == w0.owns(e)) by {
                    if (e.index as int) < w0.num_slots() {
                        assert(removed_or_unchanged(w0, prev, c as int, hit_t, e.index as int));
                    }
                }
                if hit_next.contains(i) {
                    let k = choose|k: int|
                        0 <= k < t + 1 && w0.owns(#[trigger] list@.subrange(0, t + 1)[k])
                            && list@.subrange(0, t + 1)[k].index == i;
                    if k < t {
                        assert(w0.owns(list@.subrange(0, t as int)[k]));
                        assert(hit_t.contains(i));
                        if w0.owns(e) && e.index as int == i {
                            // removing again from an already-cleared cell
                            // changes nothing in the cell sequence
                            assert(prev.slots@[i].components@ == w0.slots@[
                                i
                            ].components@.update(c as int, None));
                            assert(world.slots@[i].components@ == prev.slots@[
                                i
                            ].components@.update(c as int, None));
                            assert(world.slots@[i].components@ =~= w0.slots@[
                                i
                            ].components@.update(c as int, None));
                        } else {
                            assert(slot_unchanged(prev, *world, i));
                        }
                    } else {
                        assert(list@.subrange(0, t + 1)[k] == e);
                        assert(w0.owns(e) && e.index as int == i);
                        if hit_t.contains(i) {
                            assert(prev.slots@[i].components@ == w0.slots@[
                                i
                            ].components@.update(c as int, None));
                            assert(world.slots@[i].components@ == prev.slots@[
                                i
                            ].components@.update(c as int, None));
                            assert(world.slots@[i].components@ =~= w0.slots@[
                                i
                            ].components@.update(c as int, None));
                        } else {
                            assert(world.slots@[i].components@ == prev.slots@[
                                i
                            ].components@.update(c as int, None));
                        }
                    }
                } else {
                    assert(!hit_t.contains(i)) by {
                        if hit_t.contains(i) {
                            let k = choose|k: int|
                                0 <= k < t && w0.owns(#[trigger] list@.subrange(0, t as int)[k])
                                    && list@.subrange(0, t as int)[k].index == i;
                            assert(w0.owns(list@.subrange(0, t + 1)[k]));
                            assert(hit_next.contains(i));
                        }
                    }
                    if w0.owns(e) && e.index as int == i {
                        assert(list@.subrange(0, t + 1)[t as int] == e);
                        assert(hit_next.contains(i));
                    }
                    assert(slot_unchanged(prev, *world, i));
                }
            }
        }
        t = t + 1;
    }
    proof {
        assert(list@.subrange(0, list@.len() as int) =~= list@);
    }
}

/// Apply a `RemoveAll` command: scan for the targeted entities, then
/// detach the component from each.
fn run_remove_all(world: &mut World, c: usize, f: &Filter, buffer: &mut ScratchBuffer)
    requires
        old(world).wf(),
        (c as int) < old(world).component_kinds,
        f.wf(old(world).component_kinds as int),
        old(buffer).state is Held,
        old(buffer).entries@.len() == 0,
    ensures
        final(world).wf(),
        final(buffer).state is Held,
        remove_effect(*old(world), c as int, *f, *final(world)),
{
    let ghost w0 = *old(world);
    scan_component_filter(world, c, f, buffer);
    remove_each(world, c, &buffer.entries);
    proof {
        let hit = live_handle_set(w0, buffer.entries@);
        let ts = target_set(w0, c as int, *f);
        assert forall|i: int| #[trigger] hit.contains(i) implies ts.contains(i) by {
            let k = choose|k: int|
                0 <= k < buffer.entries@.len() && w0.owns(#[trigger] buffer.entries@[k])
                    && buffer.entries@[k].index == i;
            assert(w0.has_at(buffer.entries@[k].index as int, c as int));
            assert(f.matches_at(w0, buffer.entries@[k].index as int));
        }
        assert forall|i: int| #[trigger] ts.contains(i) implies hit.contains(i) by {
            assert(w0.has_at(i, c as int) && f.matches_at(w0, i));
            let k = choose|k: int|
                0 <= k < buffer.entries@.len() && (#[trigger] buffer.entries@[k]).index as int == i;
            assert(w0.owns(buffer.entries@[k]));
        }
        assert(hit =~= ts);
    }
}

/// The entity in slot `i` is one a retain command examines: live, with
/// the component, and selected by the filter.
pub open spec fn retain_targeted(w0: World, c: int, f: Filter, i: int) -> bool {
    w0.has_at(i, c) && f.matches_at(w0, i)
}

/// The entity in slot `i` is examined and the predicate says not to keep
/// it. The decision reads the component value the slot had when the
/// command started.
pub open spec fn retain_marked(w0: World, c: int, p: Predicate, f: Filter, i: int) -> bool {
    retain_targeted(w0, c, f, i) && !p.keeps(w0.value_at(i, c))
}

/// The set of slots a retain command marks for despawn.
pub open spec fn marked_set(w0: World, c: int, p: Predicate, f: Filter) -> Set<int> {
    Set::new(|i: int| retain_marked(w0, c, p, f, i))
}

/// The component cells of slot `i` after a mutable retain ran the
/// predicate on it: the cell of kind `c` holds the moved-to value and is
/// marked changed.
pub open spec fn retained_components(w0: World, c: int, p: Predicate, i: int) -> Seq<
    Option<ComponentState>,
> {
    w0.slots@[i].components@.update(
        c,
        Some(ComponentState { value: p.next_value(w0.value_at(i, c)), changed: true }),
    )
}

/// Slot `i` went from `w0` to `w1` under the predicate pass of a retain
/// command: nothing despawned yet, and the component mutated exactly on
/// the examined entities when the command has mutable access.
pub open spec fn retain_scan_slot(
    w0: World,
    c: int,
    p: Predicate,
    f: Filter,
    mutate: bool,
    w1: World,
    i: int,
) -> bool {
    &&& w1.slots@[i].alive == w0.slots@[i].alive
    &&& w1.slots@[i].generation == w0.slots@[i].generation
    &&& w1.slots@[i].children@ == w0.slots@[i].children@
    &&& w1.slots@[i].components@ == if retain_targeted(w0, c, f, i) && mutate {
        retained_components(w0, c, p, i)
    } else {
        w0.slots@[i].components@
    }
}

/// What `Retain` does: every examined entity the predicate keeps survives
/// (with the mutation stored if the command is mutable), every examined
/// entity it rejects becomes a tombstone, and entities not examined are
/// untouched.
pub open spec fn retain_slot_effect(
    w0: World,
    c: int,
    p: Predicate,
    f: Filter,
    mutate: bool,
    w1: World,
    i: int,
) -> bool {
    &&& w1.slots@[i].alive == (w0.slots@[i].alive && !retain_marked(w0, c, p, f, i))
    &&& w1.slots@[i].generation == if retain_marked(w0, c, p, f, i) {
        bumped(w0.slots@[i].generation)
    } else {
        w0.slots@[i].generation
    }
    &&& w1.slots@[i].children@ == w0.slots@[i].children@
    &&& w1.slots@[i].components@ == if retain_targeted(w0, c, f, i) && mutate {
        retained_components(w0, c, p, i)
    } else {
        w0.slots@[i].components@
    }
}

/// See `retain_slot_effect`, over every slot.
pub open spec fn retain_effect(
    w0: World,
    c: int,
    p: Predicate,
    f: Filter,
    mutate: bool,
    w1: World,
) -> bool {
    &&& same_shape(w0, w1)
    &&& forall|i: int|
        0 <= i < w0.num_slots() ==> #[trigger] retain_slot_effect(w0, c, p, f, mutate, w1, i)
}

/// What `RetainRecursive` does: as `Retain`, but every transitive
/// descendant of a rejected entity becomes a tombstone too.
pub open spec fn retain_recursive_slot_effect(
    w0: World,
    c: int,
    p: Predicate,
    f: Filter,
    mutate: bool,
    w1: World,
    i: int,
) -> bool {
    &&& if cascade_member(w0, marked_set(w0, c, p, f), i) {
        !w1.slots@[i].alive && w1.slots@[i].generation == bumped(w0.slots@[i].generation)
    } else {
        w1.slots@[i].alive == w0.slots@[i].alive && w1.slots@[i].generation == w0.slots@[
            i
        ].generation
    }
    &&& w1.slots@[i].children@ == w0.slots@[i].children@
    &&& w1.slots@[i].components@ == if retain_targeted(w0, c, f, i) && mutate {
        retained_components(w0, c, p, i)
    } else {
        w0.slots@[i].components@
    }
}

/// See `retain_recursive_slot_effect`, over every slot.
pub open spec fn retain_recursive_effect(
    w0: World,
    c: int,
    p: Predicate,
    f: Filter,
    mutate: bool,
    w1: World,
) -> bool {
    &&& same_shape(w0, w1)
    &&& forall|i: int|
        0 <= i < w0.num_slots() ==> #[trigger] retain_recursive_slot_effect(
            w0,
            c,
            p,
            f,
            mutate,
            w1,
            i,
        )
}

/// The predicate pass of a retain command: examine every targeted entity
/// in slot order, store the mutation if the command is mutable, and push
/// a handle for every entity the predicate rejects.
fn retain_scan(
    world: &mut World,
    c: usize,
    p: &Predicate,
    f: &Filter,
    mutate: bool,
    buffer: &mut ScratchBuffer,
)
    requires
        old(world).wf(),
        (c as int) < old(world).component_kinds,
        f.wf(old(world).component_kinds as int),
        old(buffer).state is Held,
        old(buffer).entries@.len() == 0,
    ensures
        final(world).wf(),
        same_shape(*old(world), *final(world)),
        final(buffer).state is Held,
        forall|i: int|
            0 <= i < old(world).num_slots() ==> #[trigger] retain_scan_slot(
                *old(world),
                c as int,
                *p,
                *f,
                mutate,
                *final(world),
                i,
            ),
        forall|k: int|
            0 <= k < final(buffer).entries@.len() ==> final(world).owns(
                #[trigger] final(buffer).entries@[k],
            ) && old(world).owns(final(buffer).entries@[k]) && retain_marked(
                *old(world),
                c as int,
                *p,
                *f,
                final(buffer).entries@[k].index as int,
            ),
        forall|j: int|
            0 <= j < old(world).num_slots() && #[trigger] retain_marked(
                *old(world),
                c as int,
                *p,
                *f,
                j,
            ) ==> exists|k: int|
                0 <= k < final(buffer).entries@.len()
                    && (#[trigger] final(buffer).entries@[k]).index as int == j,
{
    let ghost w0 = *old(world);
    let n = world.slot_count();
    let mut i: usize = 0;
    while i < n
        invariant
            w0.wf(),
            world.wf(),
            same_shape(w0, *world),
            (c as int) < w0.component_kinds,
            f.wf(w0.component_kinds as int),
            buffer.state is Held,
            i <= n,
            n as int == w0.num_slots(),
            forall|q: int|
                0 <= q < i ==> #[trigger] retain_scan_slot(w0, c as int, *p, *f, mutate, *world, q),
            forall|q: int| i <= q < w0.num_slots() ==> #[trigger] slot_unchanged(w0, *world, q),
            forall|k: int|
                0 <= k < buffer.entries@.len() ==> world.owns(#[trigger] buffer.entries@[k])
                    && w0.owns(buffer.entries@[k]) && (buffer.entries@[k].index as int) < i
                    && retain_marked(w0, c as int, *p, *f, buffer.entries@[k].index as int),
            forall|j: int|
                0 <= j < i && #[trigger] retain_marked(w0, c as int, *p, *f, j) ==> exists|k: int|
                    0 <= k < buffer.entries@.len() && (#[trigger] buffer.entries@[k]).index as int
                        == j,
        decreases n - i,
    {
        let ghost prev = *world;
        let ghost entries0 = buffer.entries@;
        proof {
            assert(slot_unchanged(w0, *world, i as int));
            crate::filter::lemma_matches_local(*f, w0, *world, i as int);
            assert(w0.slot_wf(i as int));
        }
        let tgt = if world.has_index(i, c) {
            f.matches_entity(world, i)
        } else {
            false
        };
        proof {
            assert(tgt == retain_targeted(w0, c as int, *f, i as int));
        }
        if tgt {
            let val = world.component_value_index(i, c);
            proof {
                assert(val == w0.value_at(i as int, c as int));
            }
            let verdict = p.evaluate(val);
            if mutate {
                world.set_component_index(
                    i,
                    c,
                    ComponentState { value: verdict.0, changed: true },
                );
            }
            if !verdict.1 {
                let g = world.generation_index(i);
                buffer.push(Entity { index: i, generation: g });
            }
            proof {
                assert forall|q: int| 0 <= q < i + 1 implies retain_scan_slot(
                    w0,
                    c as int,
                    *p,
                    *f,
                    mutate,
                    *world,
                    q,
                ) by {
                    if q < i {
                        assert(retain_scan_slot(w0, c as int, *p, *f, mutate, prev, q));
                        assert(slot_unchanged(prev, *world, q));
                    } else {
                        assert(slot_unchanged(w0, prev, q));
                    }
                }
                assert forall|q: int| i + 1 <= q < w0.num_slots() implies slot_unchanged(
                    w0,
                    *world,
                    q,
                ) by {
                    assert(slot_unchanged(w0, prev, q));
                    assert(slot_unchanged(prev, *world, q));
                }
                assert forall|k: int| 0 <= k < buffer.entries@.len() implies world.owns(
                    #[trigger] buffer.entries@[k],
                ) && w0.owns(buffer.entries@[k]) && (buffer.entries@[k].index as int) < i + 1
                    && retain_marked(w0, c as int, *p, *f, buffer.entries@[k].index as int) by {
                    if k < entries0.len() {
                        assert(buffer.entries@[k] == entries0[k]);
                        assert(prev.owns(entries0[k]));
                        let q = entries0[k].index as int;
                        assert(retain_scan_slot(w0, c as int, *p, *f, mutate, *world, q));
                    } else {
                        assert(buffer.entries@[k].index as int == i as int);
                        assert(!p.keeps(w0.value_at(i as int, c as int)));
                    }
                }
                assert forall|j: int|
                    0 <= j < i + 1 && retain_marked(w0, c as int, *p, *f, j) implies exists|k: int|
                    0 <= k < buffer.entries@.len() && (#[trigger] buffer.entries@[k]).index as int
                        == j by {
                    if j < i {
                        let k = choose|k: int|
                            0 <= k < entries0.len() && (#[trigger] entries0[k]).index as int == j;
                        assert(buffer.entries@[k].index as int == j);
                    } else {
                        assert(!p.keeps(w0.value_at(i as int, c as int)));
                        assert(buffer.entries@[buffer.entries@.len() - 1].index as int == j);
                    }
                }
            }
        }
        i = i + 1;
    }
}

/// Apply a `Retain` command: run the predicate pass, then despawn the
/// rejected entities.
fn run_retain(
    world: &mut World,
    c: usize,
    p: &Predicate,
    f: &Filter,
    mutate: bool,
    buffer: &mut ScratchBuffer,
)
    requires
        old(world).wf(),
        (c as int) < old(world).component_kinds,
        f.wf(old(world).component_kinds as int),
        old(buffer).state is Held,
        old(buffer).entries@.len() == 0,
    ensures
        final(world).wf(),
        final(buffer).state is Held,
        retain_effect(*old(world), c as int, *p, *f, mutate, *final(world)),
{
    let ghost w0 = *old(world);
    retain_scan(world, c, p, f, mutate, buffer);
    let ghost mid = *world;
    despawn_each(world, &buffer.entries);
    proof {
        let kill = live_handle_set(mid, buffer.entries@);
        let mk = marked_set(w0, c as int, *p, *f);
        assert forall|i: int| #[trigger] kill.contains(i) implies mk.contains(i) by {
            let k = choose|k: int|
                0 <= k < buffer.entries@.len() && mid.owns(#[trigger] buffer.entries@[k])
                    && buffer.entries@[k].index == i;
            assert(retain_marked(w0, c as int, *p, *f, buffer.entries@[k].index as int));
        }
        assert forall|i: int| #[trigger] mk.contains(i) implies kill.contains(i) by {
            assert(retain_marked(w0, c as int, *p, *f, i));
            let k = choose|k: int|
                0 <= k < buffer.entries@.len() && (#[trigger] buffer.entries@[k]).index as int == i;
            assert(mid.owns(buffer.entries@[k]));
        }
        assert(kill =~= mk);
        assert forall|i: int| 0 <= i < w0.num_slots() implies retain_slot_effect(
            w0,
            c as int,
            *p,
            *f,
            mutate,
            *world,
            i,
        ) by {
            assert(retain_scan_slot(w0, c as int, *p, *f, mutate, mid, i));
            assert(despawned_or_unchanged(mid, *world, kill, i));
        }
    }
}

/// Apply a `RetainRecursive` command: run the predicate pass, expand the
/// rejected set to its full cascade, then despawn the expanded set.
fn run_retain_recursive(
    world: &mut World,
    c: usize,
    p: &Predicate,
    f: &Filter,
    mutate: bool,
    buffer: &mut ScratchBuffer,
)
    requires
        old(world).wf(),
        (c as int) < old(world).component_kinds,
        f.wf(old(world).component_kinds as int),
        old(buffer).state is Held,
        old(buffer).entries@.len() == 0,
    ensures
        final(world).wf(),
        final(buffer).state is Held,
        retain_recursive_effect(*old(world), c as int, *p, *f, mutate, *final(world)),
{
    let ghost w0 = *old(world);
    retain_scan(world, c, p, f, mutate, buffer);
    let ghost mid = *world;
    let removal = expand(world, &buffer.entries);
    despawn_each(world, &removal);
    proof {
        let seeds = live_handle_set(mid, buffer.entries@);
        let mk = marked_set(w0, c as int, *p, *f);
        assert forall|i: int| #[trigger] seeds.contains(i) implies mk.contains(i) by {
            let k = choose|k: int|
                0 <= k < buffer.entries@.len() && mid.owns(#[trigger] buffer.entries@[k])
                    && buffer.entries@[k].index == i;
            assert(retain_marked(w0, c as int, *p, *f, buffer.entries@[k].index as int));
        }
        assert forall|i: int| #[trigger] mk.contains(i) implies seeds.contains(i) by {
            assert(retain_marked(w0, c as int, *p, *f, i));
            let k = choose|k: int|
                0 <= k < buffer.entries@.len() && (#[trigger] buffer.entries@[k]).index as int == i;
            assert(mid.owns(buffer.entries@[k]));
        }
        assert(seeds =~= mk);
        // the predicate pass moves no entity, so cascades are unchanged
        assert(same_topology(w0, mid)) by {
            assert forall|i: int|
                0 <= i < w0.num_slots() implies mid.slots@[i].alive == w0.slots@[i].alive
                && mid.slots@[i].generation == w0.slots@[i].generation && mid.slots@[i].children@
                == w0.slots@[i].children@ by {
                assert(retain_scan_slot(w0, c as int, *p, *f, mutate, mid, i));
            }
        }
        let kill = live_handle_set(mid, removal@);
        let members = cascade_set(w0, mk);
        assert forall|i: int| #[trigger] kill.contains(i) implies members.contains(i) by {
            let k = choose|k: int|
                0 <= k < removal@.len() && mid.owns(#[trigger] removal@[k]) && removal@[k].index
                    == i;
            assert(cascade_member(mid, live_handle_set(mid, buffer.entries@), removal@[k].index as int));
            lemma_member_same_topology(w0, mid, mk, i);
        }
        assert forall|i: int| #[trigger] members.contains(i) implies kill.contains(i) by {
            lemma_member_same_topology(w0, mid, mk, i);
            assert(cascade_member(mid, live_handle_set(mid, buffer.entries@), i));
            let k = choose|k: int|
                0 <= k < removal@.len() && (#[trigger] removal@[k]).index as int == i;
            assert(mid.owns(removal@[k]));
        }
        assert(kill =~= members);
        assert forall|i: int| 0 <= i < w0.num_slots() implies retain_recursive_slot_effect(
            w0,
            c as int,
            *p,
            *f,
            mutate,
            *world,
            i,
        ) by {
            assert(retain_scan_slot(w0, c as int, *p, *f, mutate, mid, i));
            assert(despawned_or_unchanged(mid, *world, kill, i));
        }
    }
}

/// What applying one command does to the world.
pub open spec fn command_effect(w0: World, cmd: Command, w1: World) -> bool {
    match cmd {
        Command::DespawnAll(f) => despawn_effect(w0, f, w1),
        Command::DespawnAllRecursive(f) => despawn_recursive_effect(w0, f, w1),
        Command::RemoveAll(c, f) => remove_effect(w0, c as int, f, w1),
        Command::Retain { component, predicate, filter, mutate, recursive } => if recursive {
            retain_recursive_effect(w0, component as int, predicate, filter, mutate, w1)
        } else {
            retain_effect(w0, component as int, predicate, filter, mutate, w1)
        },
    }
}

/// Apply one command: acquire the scratch buffer, run the command's scan,
/// cascade and action, and release the buffer empty. Succeeds exactly when
/// the buffer was free; a held or poisoned buffer fails loudly and leaves
/// the world and the buffer untouched.
pub fn apply_command(world: &mut World, buffer: &mut ScratchBuffer, cmd: Command) -> (r: Result<
    (),
    ApplyFault,
>)
    requires
        old(world).wf(),
        cmd.wf(old(world).component_kinds as int),
        old(buffer).inv(),
    ensures
        final(world).wf(),
        final(buffer).inv(),
        r is Ok <==> old(buffer).state is Free,
        r is Ok ==> command_effect(*old(world), cmd, *final(world)) && final(buffer).state is Free
            && final(buffer).entries@.len() == 0,
        r is Err ==> world_unchanged(*old(world), *final(world)) && *final(buffer) == *old(buffer),
        old(buffer).state is Held ==> r == Err::<(), ApplyFault>(ApplyFault::BufferContended),
        old(buffer).state is Poisoned ==> r == Err::<(), ApplyFault>(ApplyFault::BufferPoisoned),
{
    match buffer.acquire() {
        Err(fault) => {
            return Err(fault);
        },
        Ok(()) => {},
    }
    match cmd {
        Command::DespawnAll(f) => {
            run_despawn_all(world, &f, buffer);
        },
        Command::DespawnAllRecursive(f) => {
            run_despawn_all_recursive(world, &f, buffer);
        },
        Command::RemoveAll(c, f) => {
            run_remove_all(world, c, &f, buffer);
        },
        Command::Retain { component, predicate, filter, mutate, recursive } => {
            if recursive {
                run_retain_recursive(world, component, &predicate, &filter, mutate, buffer);
            } else {
                run_retain(world, component, &predicate, &filter, mutate, buffer);
            }
        },
    }
    buffer.release();
    Ok(())
}

} // verus!
