//! The laws the command subsystem guarantees, stated and proved over the
//! command effects.

use vstd::prelude::*;

use crate::cascade::{cascade_member, child_link, lemma_member_step, lemma_root_member};
use crate::command::{cascade_set, despawn_effect, despawn_recursive_effect, despawned_or_unchanged, marked_set,
    match_set, remove_effect, removed_or_unchanged, retain_effect, retain_marked, target_set,
    retain_recursive_effect, retain_recursive_slot_effect, retain_slot_effect, retain_targeted};
use crate::filter::{lemma_matches_local, Filter};
use crate::predicate::Predicate;
use crate::world::{lemma_live_count_pointwise, live_count, slot_unchanged, world_unchanged, World};

verus! {

/// After `despawn_all`, the surviving entities are exactly the pre-apply
/// live entities that did not match the filter, and every survivor's data
/// is untouched.
pub proof fn lemma_despawn_all_survivors(w0: World, w1: World, f: Filter)
    requires
        despawn_effect(w0, f, w1),
    ensures
        forall|i: int|
            0 <= i < w0.num_slots() ==> (w1.live_at(i) <==> (w0.live_at(i) && !f.matches_at(
                w0,
                i,
            ))),
        forall|i: int| 0 <= i < w0.num_slots() && w1.live_at(i) ==> slot_unchanged(w0, w1, i),
{
    assert forall|i: int| 0 <= i < w0.num_slots() implies (w1.live_at(i) <==> (w0.live_at(i)
        && !f.matches_at(w0, i))) && (w1.live_at(i) ==> slot_unchanged(w0, w1, i)) by {
        assert(despawned_or_unchanged(w0, w1, match_set(w0, f), i));
    }
}

/// Re-applying `despawn_all` with the same filter is a no-op: the first
/// application removed every match, and the survivors, being untouched,
/// still do not match.
pub proof fn lemma_despawn_all_idempotent(w0: World, w1: World, w2: World, f: Filter)
    requires
        despawn_effect(w0, f, w1),
        despawn_effect(w1, f, w2),
    ensures
        world_unchanged(w1, w2),
{
    assert forall|i: int| 0 <= i < w1.num_slots() implies slot_unchanged(w1, w2, i) by {
        assert(despawned_or_unchanged(w0, w1, match_set(w0, f), i));
        assert(despawned_or_unchanged(w1, w2, match_set(w1, f), i));
        if match_set(w1, f).contains(i) {
            assert(w1.live_at(i));
            assert(!match_set(w0, f).contains(i));
            assert(slot_unchanged(w0, w1, i));
            lemma_matches_local(f, w0, w1, i);
            assert(f.matches_at(w0, i));
            assert(false);
        }
    }
}

/// The recursive removal set contains every filter match, is closed under
/// live child links — so descendants fall even when they do not match —
/// and nothing outside it moves.
pub proof fn lemma_despawn_recursive_covers(w0: World, w1: World, f: Filter)
    requires
        despawn_recursive_effect(w0, f, w1),
    ensures
        forall|i: int| 0 <= i < w0.num_slots() && #[trigger] f.matches_at(w0, i) ==> !w1.live_at(i),
        forall|i: int, j: int|
            cascade_member(w0, match_set(w0, f), i) && #[trigger] child_link(w0, i, j)
                ==> !w1.live_at(j),
        forall|i: int|
            0 <= i < w0.num_slots() && !cascade_member(w0, match_set(w0, f), i) ==> slot_unchanged(
                w0,
                w1,
                i,
            ),
{
    assert forall|i: int| 0 <= i < w0.num_slots() && #[trigger] f.matches_at(w0, i) implies !w1.live_at(
        i,
    ) by {
        lemma_root_member(w0, match_set(w0, f), i);
        assert(despawned_or_unchanged(w0, w1, cascade_set(w0, match_set(w0, f)), i));
    }
    assert forall|i: int, j: int|
        cascade_member(w0, match_set(w0, f), i) && #[trigger] child_link(w0, i, j) implies !w1.live_at(
        j,
    ) by {
        lemma_member_step(w0, match_set(w0, f), i, j);
        assert(despawned_or_unchanged(w0, w1, cascade_set(w0, match_set(w0, f)), j));
    }
    assert forall|i: int|
        0 <= i < w0.num_slots() && !cascade_member(w0, match_set(w0, f), i) implies slot_unchanged(
        w0,
        w1,
        i,
    ) by {
        assert(despawned_or_unchanged(w0, w1, cascade_set(w0, match_set(w0, f)), i));
    }
}

/// `remove_all_filtered` never spawns or despawns: the live set — and so
/// the live entity count — is unchanged, every targeted entity loses the
/// component, and every other entity is untouched.
pub proof fn lemma_remove_all_preserves_entities(w0: World, w1: World, c: int, f: Filter)
    requires
        w0.wf(),
        remove_effect(w0, c, f, w1),
    ensures
        live_count(w1) == live_count(w0),
        forall|i: int| 0 <= i < w0.num_slots() ==> w1.live_at(i) == w0.live_at(i),
        forall|i: int|
            0 <= i < w0.num_slots() && w0.has_at(i, c) && #[trigger] f.matches_at(w0, i)
                ==> !w1.has_at(i, c),
        forall|i: int|
            0 <= i < w0.num_slots() && !(w0.has_at(i, c) && f.matches_at(w0, i))
                ==> slot_unchanged(w0, w1, i),
{
    let ts = target_set(w0, c, f);
    assert forall|i: int| 0 <= i < w0.num_slots() implies w1.live_at(i) == w0.live_at(i) by {
        assert(removed_or_unchanged(w0, w1, c, ts, i));
    }
    assert forall|i: int|
        0 <= i < w0.num_slots() && w0.has_at(i, c) && #[trigger] f.matches_at(
        w0,
        i,
    ) implies !w1.has_at(i, c) by {
        assert(removed_or_unchanged(w0, w1, c, ts, i));
        assert(w0.slot_wf(i));
        assert(w1.comp_at(i, c) is None);
    }
    assert forall|i: int|
        0 <= i < w0.num_slots() && !(w0.has_at(i, c) && f.matches_at(w0, i)) implies slot_unchanged(
        w0,
        w1,
        i,
    ) by {
        assert(removed_or_unchanged(w0, w1, c, ts, i));
    }
    assert forall|i: int| 0 <= i < w0.slots@.len() implies w0.slots@[i].alive == w1.slots@[
        i
    ].alive by {
        assert(removed_or_unchanged(w0, w1, c, ts, i));
    }
    lemma_live_count_pointwise(w0.slots@, w1.slots@);
}

/// Retain partitions the examined entities: every surviving examined
/// entity satisfies the predicate, every examined entity the predicate
/// rejected is gone, and entities that were not examined — dead, without
/// the component, or not selected — are untouched.
pub proof fn lemma_retain_partition(w0: World, w1: World, c: int, p: Predicate, f: Filter)
    requires
        retain_effect(w0, c, p, f, false, w1),
    ensures
        forall|i: int|
            0 <= i < w0.num_slots() && w1.live_at(i) && #[trigger] retain_targeted(w0, c, f, i)
                ==> p.keeps(w1.value_at(i, c)),
        forall|i: int|
            0 <= i < w0.num_slots() && #[trigger] retain_marked(w0, c, p, f, i) ==> !w1.live_at(i),
        forall|i: int|
            0 <= i < w0.num_slots() && !retain_targeted(w0, c, f, i) ==> slot_unchanged(w0, w1, i),
{
    assert forall|i: int|
        0 <= i < w0.num_slots() && w1.live_at(i) && #[trigger] retain_targeted(
        w0,
        c,
        f,
        i,
    ) implies p.keeps(w1.value_at(i, c)) by {
        assert(retain_slot_effect(w0, c, p, f, false, w1, i));
        assert(!retain_marked(w0, c, p, f, i));
    }
    assert forall|i: int|
        0 <= i < w0.num_slots() && #[trigger] retain_marked(w0, c, p, f, i) implies !w1.live_at(
        i,
    ) by {
        assert(retain_slot_effect(w0, c, p, f, false, w1, i));
    }
    assert forall|i: int|
        0 <= i < w0.num_slots() && !retain_targeted(w0, c, f, i) implies slot_unchanged(
        w0,
        w1,
        i,
    ) by {
        assert(retain_slot_effect(w0, c, p, f, false, w1, i));
    }
}

/// A mutable retain's mutation is observable on every surviving examined
/// entity: it still has the component, whose value is the predicate's
/// moved-to value and whose change flag is set.
pub proof fn lemma_retain_mut_observable(w0: World, w1: World, c: int, p: Predicate, f: Filter)
    requires
        w0.wf(),
        retain_effect(w0, c, p, f, true, w1),
    ensures
        forall|i: int|
            0 <= i < w0.num_slots() && w1.live_at(i) && #[trigger] retain_targeted(w0, c, f, i)
                ==> w1.has_at(i, c) && w1.value_at(i, c) == p.next_value(w0.value_at(i, c))
                && w1.changed_at(i, c),
{
    assert forall|i: int|
        0 <= i < w0.num_slots() && w1.live_at(i) && #[trigger] retain_targeted(
        w0,
        c,
        f,
        i,
    ) implies w1.has_at(i, c) && w1.value_at(i, c) == p.next_value(w0.value_at(i, c))
        && w1.changed_at(i, c) by {
        assert(retain_slot_effect(w0, c, p, f, true, w1, i));
        assert(w0.slot_wf(i));
    }
}

/// A recursive retain despawns every rejected entity and every transitive
/// descendant of one, and an entity outside that cascade survives exactly
/// when it was alive.
pub proof fn lemma_retain_recursive_covers(
    w0: World,
    w1: World,
    c: int,
    p: Predicate,
    f: Filter,
    mutate: bool,
)
    requires
        retain_recursive_effect(w0, c, p, f, mutate, w1),
    ensures
        forall|i: int|
            0 <= i < w0.num_slots() && #[trigger] retain_marked(w0, c, p, f, i) ==> !w1.live_at(i),
        forall|i: int, j: int|
            cascade_member(w0, marked_set(w0, c, p, f), i) && #[trigger] child_link(w0, i, j)
                ==> !w1.live_at(j),
        forall|i: int|
            0 <= i < w0.num_slots() && !cascade_member(w0, marked_set(w0, c, p, f), i)
                ==> w1.live_at(i) == w0.live_at(i),
{
    assert forall|i: int|
        0 <= i < w0.num_slots() && #[trigger] retain_marked(w0, c, p, f, i) implies !w1.live_at(
        i,
    ) by {
        lemma_root_member(w0, marked_set(w0, c, p, f), i);
        assert(retain_recursive_slot_effect(w0, c, p, f, mutate, w1, i));
    }
    assert forall|i: int, j: int|
        cascade_member(w0, marked_set(w0, c, p, f), i) && #[trigger] child_link(
        w0,
        i,
        j,
    ) implies !w1.live_at(j) by {
        lemma_member_step(w0, marked_set(w0, c, p, f), i, j);
        assert(retain_recursive_slot_effect(w0, c, p, f, mutate, w1, j));
    }
    assert forall|i: int|
        0 <= i < w0.num_slots() && !cascade_member(w0, marked_set(w0, c, p, f), i) implies w1.live_at(
        i,
    ) == w0.live_at(i) by {
        assert(retain_recursive_slot_effect(w0, c, p, f, mutate, w1, i));
    }
}

} // verus!
