//! A model of the entity-component store that the lifecycle commands act on.
//!
//! The store issues opaque entity identifiers (slot index plus generation),
//! attaches component data to entities, and maintains child links between
//! them. Entity recycling, query execution and change-detection bookkeeping
//! belong to the host store; this model keeps just what the command
//! subsystem reads and writes: liveness, component presence and value, a
//! per-component changed flag, and the child lists that cascades follow.
//! Despawned slots are tombstones: their index is never reissued and no
//! query reports them.

use vstd::prelude::*;

verus! {

/// A store-issued entity identifier: a slot index and the generation the
/// slot had when the identifier was handed out. A handle whose generation
/// no longer matches the slot is stale and names no entity.
#[derive(Clone, Copy, PartialEq, Eq, Structural, Debug)]
pub struct Entity {
    pub index: usize,
    pub generation: u32,
}

/// The data the model keeps for one component attached to one entity:
/// its value and the change-detection flag the host store maintains.
#[derive(Clone, Copy, PartialEq, Eq, Structural, Debug)]
pub struct ComponentState {
    pub value: i64,
    pub changed: bool,
}

/// One slot of the store: a liveness flag, the slot's current generation,
/// one optional component per component kind, and the slot's children.
pub struct EntitySlot {
    pub alive: bool,
    pub generation: u32,
    pub components: Vec<Option<ComponentState>>,
    pub children: Vec<Entity>,
}

/// The model store: a fixed number of component kinds and a growing list
/// of entity slots.
pub struct World {
    pub component_kinds: usize,
    pub slots: Vec<EntitySlot>,
}

/// The generation a slot moves to when the entity in it is despawned.
/// Saturating: a slot whose generation is exhausted is simply retired.
pub open spec fn bumped(g: u32) -> u32 {
    if g == u32::MAX {
        g
    } else {
        (g + 1) as u32
    }
}

impl World {
    /// Number of slots ever allocated, live or dead.
    pub open spec fn num_slots(self) -> int {
        self.slots@.len() as int
    }

    /// Slot `i` carries one component cell per component kind.
    pub open spec fn slot_wf(self, i: int) -> bool {
        self.slots@[i].components@.len() == self.component_kinds
    }

    /// Every slot carries one component cell per component kind.
    pub open spec fn wf(self) -> bool {
        forall|i: int| 0 <= i < self.num_slots() ==> self.slot_wf(i)
    }

    /// Slot `i` holds a live entity.
    pub open spec fn live_at(self, i: int) -> bool {
        0 <= i < self.num_slots() && self.slots@[i].alive
    }

    /// The component cell of kind `c` in slot `i`.
    pub open spec fn comp_at(self, i: int, c: int) -> Option<ComponentState> {
        self.slots@[i].components@[c]
    }

    /// Slot `i` holds a live entity that has a component of kind `c`.
    pub open spec fn has_at(self, i: int, c: int) -> bool {
        self.live_at(i) && 0 <= c < self.component_kinds && self.comp_at(i, c) is Some
    }

    /// The value of the component of kind `c` in slot `i`; meaningful
    /// under `has_at`.
    pub open spec fn value_at(self, i: int, c: int) -> i64 {
        self.comp_at(i, c)->Some_0.value
    }

    /// The changed flag of the component of kind `c` in slot `i`;
    /// meaningful under `has_at`.
    pub open spec fn changed_at(self, i: int, c: int) -> bool {
        self.comp_at(i, c)->Some_0.changed
    }

    /// The current generation of slot `i`.
    pub open spec fn gen_at(self, i: int) -> u32 {
        self.slots@[i].generation
    }

    /// The child links recorded in slot `i`.
    pub open spec fn children_at(self, i: int) -> Seq<Entity> {
        self.slots@[i].children@
    }

    /// The handle `e` names a live entity: its slot is live and still in
    /// the generation the handle was issued with.
    pub open spec fn owns(self, e: Entity) -> bool {
        &&& (e.index as int) < self.num_slots()
        &&& self.slots@[e.index as int].alive
        &&& self.slots@[e.index as int].generation == e.generation
    }
}

/// Slot `i` reads the same in both worlds.
pub open spec fn slot_unchanged(w0: World, w1: World, i: int) -> bool {
    &&& w1.slots@[i].alive == w0.slots@[i].alive
    &&& w1.slots@[i].generation == w0.slots@[i].generation
    &&& w1.slots@[i].components@ == w0.slots@[i].components@
    &&& w1.slots@[i].children@ == w0.slots@[i].children@
}

/// Slot `i` went from its state in `w0` to a tombstone in `w1`: dead, its
/// generation bumped, its component and child data left in place.
pub open spec fn slot_despawned(w0: World, w1: World, i: int) -> bool {
    &&& !w1.slots@[i].alive
    &&& w1.slots@[i].generation == bumped(w0.slots@[i].generation)
    &&& w1.slots@[i].components@ == w0.slots@[i].components@
    &&& w1.slots@[i].children@ == w0.slots@[i].children@
}

/// Both worlds have the same component kinds and the same slot count.
pub open spec fn same_shape(w0: World, w1: World) -> bool {
    &&& w1.component_kinds == w0.component_kinds
    &&& w1.num_slots() == w0.num_slots()
}

/// The two worlds read the same everywhere.
pub open spec fn world_unchanged(w0: World, w1: World) -> bool {
    &&& same_shape(w0, w1)
    &&& forall|i: int| 0 <= i < w0.num_slots() ==> slot_unchanged(w0, w1, i)
}

/// A component cell with its change flag cleared.
pub open spec fn cleared_cell(o: Option<ComponentState>) -> Option<ComponentState> {
    match o {
        Some(cs) => Some(ComponentState { value: cs.value, changed: false }),
        None => None,
    }
}

/// Number of live slots in a slot sequence.
pub open spec fn live_count_seq(s: Seq<EntitySlot>) -> nat
    decreases s.len(),
{
    if s.len() == 0 {
        0
    } else {
        live_count_seq(s.drop_last()) + if s.last().alive {
            1nat
        } else {
            0nat
        }
    }
}

/// Number of live entities in the world.
pub open spec fn live_count(w: World) -> nat {
    live_count_seq(w.slots@)
}

/// Two slot sequences that agree pointwise on liveness hold the same
/// number of live entities.
pub proof fn lemma_live_count_pointwise(s0: Seq<EntitySlot>, s1: Seq<EntitySlot>)
    requires
        s0.len() == s1.len(),
        forall|i: int| 0 <= i < s0.len() ==> s0[i].alive == s1[i].alive,
    ensures
        live_count_seq(s0) == live_count_seq(s1),
    decreases s0.len(),
{
    if s0.len() > 0 {
        assert(forall|i: int|
            0 <= i < s0.drop_last().len() ==> s0.drop_last()[i].alive == s1.drop_last()[i].alive);
        lemma_live_count_pointwise(s0.drop_last(), s1.drop_last());
    }
}

impl World {
    /// An empty store over `component_kinds` kinds of component.
    pub fn new(component_kinds: usize) -> (w: World)
        ensures
            w.wf(),
            w.num_slots() == 0,
            w.component_kinds == component_kinds,
    {
        World { component_kinds, slots: Vec::new() }
    }

    /// Allocate a fresh live entity with no components and no children.
    pub fn spawn(&mut self) -> (e: Entity)
        requires
            old(self).wf(),
        ensures
            final(self).wf(),
            final(self).component_kinds == old(self).component_kinds,
            final(self).num_slots() == old(self).num_slots() + 1,
            forall|i: int|
                0 <= i < old(self).num_slots() ==> slot_unchanged(*old(self), *final(self), i),
            e.index as int == old(self).num_slots(),
            e.generation == 0,
            final(self).owns(e),
            final(self).live_at(e.index as int),
            final(self).gen_at(e.index as int) == 0,
            forall|c: int| !final(self).has_at(e.index as int, c),
            final(self).children_at(e.index as int).len() == 0,
    {
        let mut components: Vec<Option<ComponentState>> = Vec::new();
        let mut c: usize = 0;
        while c < self.component_kinds
            invariant
                c <= self.component_kinds,
                components@.len() == c,
                forall|k: int| 0 <= k < c ==> components@[k] is None,
            decreases self.component_kinds - c,
        {
            components.push(None);
            c = c + 1;
        }
        let index = self.slots.len();
        self.slots.push(
            EntitySlot { alive: true, generation: 0, components, children: Vec::new() },
        );
        proof {
            assert forall|i: int| 0 <= i < self.num_slots() implies self.slot_wf(i) by {
                if i < old(self).num_slots() {
                    assert(old(self).slot_wf(i));
                }
            }
        }
        Entity { index, generation: 0 }
    }

    /// Despawn the entity named by `e`. Idempotent: a stale or dead handle
    /// is a no-op, never an error. A despawned slot keeps its data but is
    /// dead and moves to the next generation.
    pub fn despawn(&mut self, e: Entity) -> (despawned: bool)
        requires
            old(self).wf(),
        ensures
            final(self).wf(),
            same_shape(*old(self), *final(self)),
            despawned == old(self).owns(e),
            old(self).owns(e) ==> slot_despawned(*old(self), *final(self), e.index as int),
            forall|i: int|
                0 <= i < old(self).num_slots() && !(old(self).owns(e) && i == e.index as int)
                    ==> slot_unchanged(*old(self), *final(self), i),
    {
        if e.index < self.slots.len() {
            let alive_now = self.slots[e.index].alive;
            let gen_now = self.slots[e.index].generation;
            if alive_now && gen_now == e.generation {
                let slot = &mut self.slots[e.index];
                slot.alive = false;
                slot.generation = if gen_now == u32::MAX {
                    u32::MAX
                } else {
                    gen_now + 1
                };
                proof {
                    assert forall|i: int| 0 <= i < self.num_slots() implies self.slot_wf(i) by {
                        assert(old(self).slot_wf(i));
                    }
                }
                return true;
            }
        }
        false
    }

    /// Attach (or overwrite) the component of kind `c` on the entity named
    /// by `e`, marking it changed. Returns false and does nothing on a
    /// stale handle or an unknown component kind.
    pub fn insert(&mut self, e: Entity, c: usize, value: i64) -> (inserted: bool)
        requires
            old(self).wf(),
        ensures
            final(self).wf(),
            same_shape(*old(self), *final(self)),
            inserted == (old(self).owns(e) && (c as int) < old(self).component_kinds),
            inserted ==> {
                let i = e.index as int;
                &&& final(self).slots@[i].alive == old(self).slots@[i].alive
                &&& final(self).slots@[i].generation == old(self).slots@[i].generation
                &&& final(self).slots@[i].children@ == old(self).slots@[i].children@
                &&& final(self).slots@[i].components@ == old(self).slots@[i].components@.update(
                    c as int,
                    Some(ComponentState { value, changed: true }),
                )
            },
            forall|i: int|
                0 <= i < old(self).num_slots() && !(inserted && i == e.index as int)
                    ==> slot_unchanged(*old(self), *final(self), i),
    {
        if e.index < self.slots.len() && c < self.component_kinds {
            let alive_now = self.slots[e.index].alive;
            let gen_now = self.slots[e.index].generation;
            if alive_now && gen_now == e.generation {
                proof {
                    assert(self.slot_wf(e.index as int));
                }
                let slot = &mut self.slots[e.index];
                slot.components.set(c, Some(ComponentState { value, changed: true }));
                proof {
                    assert forall|i: int| 0 <= i < self.num_slots() implies self.slot_wf(i) by {
                        assert(old(self).slot_wf(i));
                    }
                }
                return true;
            }
        }
        false
    }

    /// Detach the component of kind `c` from the entity named by `e`. The
    /// entity stays alive; a stale handle, unknown kind or absent
    /// component is a no-op.
    pub fn remove_component(&mut self, e: Entity, c: usize) -> (removed: bool)
        requires
            old(self).wf(),
        ensures
            final(self).wf(),
            same_shape(*old(self), *final(self)),
            removed == (old(self).owns(e) && (c as int) < old(self).component_kinds
                && old(self).comp_at(e.index as int, c as int) is Some),
            (old(self).owns(e) && (c as int) < old(self).component_kinds) ==> {
                let i = e.index as int;
                &&& final(self).slots@[i].alive == old(self).slots@[i].alive
                &&& final(self).slots@[i].generation == old(self).slots@[i].generation
                &&& final(self).slots@[i].children@ == old(self).slots@[i].children@
                &&& final(self).slots@[i].components@ == old(self).slots@[i].components@.update(
                    c as int,
                    None,
                )
            },
            forall|i: int|
                0 <= i < old(self).num_slots()
                    && !(old(self).owns(e) && (c as int) < old(self).component_kinds
                        && i == e.index as int)
                    ==> slot_unchanged(*old(self), *final(self), i),
    {
        if e.index < self.slots.len() && c < self.component_kinds {
            let alive_now = self.slots[e.index].alive;
            let gen_now = self.slots[e.index].generation;
            if alive_now && gen_now == e.generation {
                proof {
                    assert(self.slot_wf(e.index as int));
                }
                let had = self.slots[e.index].components[c].is_some();
                let slot = &mut self.slots[e.index];
                slot.components.set(c, None);
                proof {
                    assert forall|i: int| 0 <= i < self.num_slots() implies self.slot_wf(i) by {
                        assert(old(self).slot_wf(i));
                    }
                }
                return had;
            }
        }
        false
    }

    /// Record `child` as a child of the entity named by `parent`. The link
    /// is data only: the store does not require the child to be live, and
    /// cascades skip links that have gone stale.
    pub fn add_child(&mut self, parent: Entity, child: Entity) -> (added: bool)
        requires
            old(self).wf(),
        ensures
            final(self).wf(),
            same_shape(*old(self), *final(self)),
            added == old(self).owns(parent),
            added ==> {
                let i = parent.index as int;
                &&& final(self).slots@[i].alive == old(self).slots@[i].alive
                &&& final(self).slots@[i].generation == old(self).slots@[i].generation
                &&& final(self).slots@[i].components@ == old(self).slots@[i].components@
                &&& final(self).slots@[i].children@ == old(self).slots@[i].children@.push(child)
            },
            forall|i: int|
                0 <= i < old(self).num_slots() && !(old(self).owns(parent) && i == parent.index as int)
                    ==> slot_unchanged(*old(self), *final(self), i),
    {
        if parent.index < self.slots.len() {
            let alive_now = self.slots[parent.index].alive;
            let gen_now = self.slots[parent.index].generation;
            if alive_now && gen_now == parent.generation {
                let slot = &mut self.slots[parent.index];
                slot.children.push(child);
                proof {
                    assert forall|i: int| 0 <= i < self.num_slots() implies self.slot_wf(i) by {
                        assert(old(self).slot_wf(i));
                    }
                }
                return true;
            }
        }
        false
    }

    /// Clear every component's change flag: the host store does this at
    /// each tick boundary, so a `Changed` clause selects what moved since
    /// the last tick.
    pub fn clear_changed(&mut self)
        requires
            old(self).wf(),
        ensures
            final(self).wf(),
            same_shape(*old(self), *final(self)),
            forall|i: int|
                0 <= i < old(self).num_slots() ==> {
                    &&& final(self).slots@[i].alive == old(self).slots@[i].alive
                    &&& final(self).slots@[i].generation == old(self).slots@[i].generation
                    &&& final(self).slots@[i].children@ == old(self).slots@[i].children@
                    &&& final(self).slots@[i].components@.len() == old(self).slots@[
                        i
                    ].components@.len()
                    &&& forall|c: int|
                        0 <= c < old(self).slots@[i].components@.len()
                            ==> final(self).slots@[i].components@[c] == cleared_cell(
                            #[trigger] old(self).slots@[i].components@[c],
                        )
                },
    {
        let ghost w0 = *old(self);
        let n = self.slots.len();
        let mut i: usize = 0;
        while i < n
            invariant
                w0.wf(),
                self.wf(),
                same_shape(w0, *self),
                i <= n,
                n as int == w0.num_slots(),
                forall|q: int|
                    0 <= q < i ==> {
                        &&& self.slots@[q].alive == w0.slots@[q].alive
                        &&& self.slots@[q].generation == w0.slots@[q].generation
                        &&& self.slots@[q].children@ == w0.slots@[q].children@
                        &&& self.slots@[q].components@.len() == w0.slots@[q].components@.len()
                        &&& forall|c: int|
                            0 <= c < w0.slots@[q].components@.len() ==> self.slots@[
                                q
                            ].components@[c] == cleared_cell(#[trigger] w0.slots@[q].components@[c])
                    },
                forall|q: int| i <= q < w0.num_slots() ==> #[trigger] slot_unchanged(w0, *self, q),
            decreases n - i,
        {
            proof {
                assert(slot_unchanged(w0, *self, i as int));
                assert(w0.slot_wf(i as int));
            }
            let m = self.slots[i].components.len();
            let mut c: usize = 0;
            while c < m
                invariant
                    w0.wf(),
                    self.wf(),
                    same_shape(w0, *self),
                    i < n,
                    n as int == w0.num_slots(),
                    c <= m,
                    m == w0.slots@[i as int].components@.len(),
                    self.slots@[i as int].alive == w0.slots@[i as int].alive,
                    self.slots@[i as int].generation == w0.slots@[i as int].generation,
                    self.slots@[i as int].children@ == w0.slots@[i as int].children@,
                    self.slots@[i as int].components@.len() == m,
                    forall|d: int|
                        0 <= d < c ==> self.slots@[i as int].components@[d] == cleared_cell(
                            #[trigger] w0.slots@[i as int].components@[d],
                        ),
                    forall|d: int|
                        c <= d < m ==> self.slots@[i as int].components@[d] == w0.slots@[
                            i as int
                        ].components@[d],
                    forall|q: int|
                        0 <= q < i ==> {
                            &&& self.slots@[q].alive == w0.slots@[q].alive
                            &&& self.slots@[q].generation == w0.slots@[q].generation
                            &&& self.slots@[q].children@ == w0.slots@[q].children@
                            &&& self.slots@[q].components@.len() == w0.slots@[q].components@.len()
                            &&& forall|d: int|
                                0 <= d < w0.slots@[q].components@.len() ==> self.slots@[
                                    q
                                ].components@[d] == cleared_cell(
                                    #[trigger] w0.slots@[q].components@[d],
                                )
                        },
                    forall|q: int|
                        i < q < w0.num_slots() ==> #[trigger] slot_unchanged(w0, *self, q),
                decreases m - c,
            {
                let ghost before = *self;
                let cell = self.slots[i].components[c];
                match cell {
                    Some(cs) => {
                        let slot = &mut self.slots[i];
                        slot.components.set(
                            c,
                            Some(ComponentState { value: cs.value, changed: false }),
                        );
                    },
                    None => {},
                }
                proof {
                    assert forall|q: int| 0 <= q < self.num_slots() implies self.slot_wf(q) by {
                        assert(before.slot_wf(q));
                    }
                    assert forall|q: int|
                        0 <= q < w0.num_slots() && q != i as int implies self.slots@[q]
                        == before.slots@[q] by {}
                    assert forall|q: int| i < q < w0.num_slots() implies slot_unchanged(
                        w0,
                        *self,
                        q,
                    ) by {
                        assert(slot_unchanged(w0, before, q));
                        assert(self.slots@[q] == before.slots@[q]);
                    }
                }
                c = c + 1;
            }
            i = i + 1;
        }
    }

    /// Whether `e` names a live entity.
    pub fn alive(&self, e: Entity) -> (r: bool)
        ensures
            r == self.owns(e),
    {
        e.index < self.slots.len() && self.slots[e.index].alive
            && self.slots[e.index].generation == e.generation
    }

    /// Whether the entity named by `e` is live and has a component of
    /// kind `c`.
    pub fn has(&self, e: Entity, c: usize) -> (r: bool)
        requires
            self.wf(),
        ensures
            r == (self.owns(e) && self.has_at(e.index as int, c as int)),
    {
        if e.index < self.slots.len() && c < self.component_kinds {
            proof {
                assert(self.slot_wf(e.index as int));
            }
            self.slots[e.index].alive && self.slots[e.index].generation == e.generation
                && self.slots[e.index].components[c].is_some()
        } else {
            false
        }
    }

    /// The value of the component of kind `c` on the entity named by `e`,
    /// or `None` on a stale handle or an absent component.
    pub fn get_value(&self, e: Entity, c: usize) -> (r: Option<i64>)
        requires
            self.wf(),
        ensures
            (self.owns(e) && self.has_at(e.index as int, c as int)) ==> r == Some(
                self.value_at(e.index as int, c as int),
            ),
            !(self.owns(e) && self.has_at(e.index as int, c as int)) ==> r is None,
    {
        if e.index < self.slots.len() && c < self.component_kinds {
            if self.slots[e.index].alive && self.slots[e.index].generation == e.generation {
                proof {
                    assert(self.slot_wf(e.index as int));
                }
                match self.slots[e.index].components[c] {
                    Some(cs) => {
                        return Some(cs.value);
                    },
                    None => {
                        return None;
                    },
                }
            }
        }
        None
    }

    /// Number of slots ever allocated, live or dead.
    pub fn slot_count(&self) -> (n: usize)
        ensures
            n as int == self.num_slots(),
    {
        self.slots.len()
    }

    /// Whether slot `i` holds a live entity with a component of kind `c`.
    pub fn has_index(&self, i: usize, c: usize) -> (r: bool)
        requires
            self.wf(),
        ensures
            r == self.has_at(i as int, c as int),
    {
        if i < self.slots.len() && c < self.component_kinds {
            proof {
                assert(self.slot_wf(i as int));
            }
            self.slots[i].alive && self.slots[i].components[c].is_some()
        } else {
            false
        }
    }

    /// The value of the component of kind `c` in slot `i`.
    pub fn component_value_index(&self, i: usize, c: usize) -> (v: i64)
        requires
            self.wf(),
            self.has_at(i as int, c as int),
        ensures
            v == self.value_at(i as int, c as int),
    {
        proof {
            assert(self.slot_wf(i as int));
        }
        match self.slots[i].components[c] {
            Some(cs) => cs.value,
            None => 0,
        }
    }

    /// The current generation of slot `i`.
    pub fn generation_index(&self, i: usize) -> (g: u32)
        requires
            (i as int) < self.num_slots(),
        ensures
            g == self.gen_at(i as int),
    {
        self.slots[i].generation
    }

    /// Overwrite the component cell of kind `c` in slot `i`.
    pub(crate) fn set_component_index(&mut self, i: usize, c: usize, cs: ComponentState)
        requires
            old(self).wf(),
            (i as int) < old(self).num_slots(),
            (c as int) < old(self).component_kinds,
        ensures
            final(self).wf(),
            same_shape(*old(self), *final(self)),
            final(self).slots@[i as int].alive == old(self).slots@[i as int].alive,
            final(self).slots@[i as int].generation == old(self).slots@[i as int].generation,
            final(self).slots@[i as int].children@ == old(self).slots@[i as int].children@,
            final(self).slots@[i as int].components@ == old(self).slots@[
                i as int
            ].components@.update(c as int, Some(cs)),
            forall|j: int|
                0 <= j < old(self).num_slots() && j != i as int ==> slot_unchanged(
                    *old(self),
                    *final(self),
                    j,
                ),
    {
        proof {
            assert(self.slot_wf(i as int));
        }
        let slot = &mut self.slots[i];
        slot.components.set(c, Some(cs));
        proof {
            assert forall|j: int| 0 <= j < self.num_slots() implies self.slot_wf(j) by {
                assert(old(self).slot_wf(j));
            }
        }
    }
}

} // verus!
