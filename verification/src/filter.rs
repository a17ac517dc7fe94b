//! Filters: immutable, reusable descriptors that select entities.
//!
//! A filter is a conjunction of clauses over one component kind each:
//! the entity has the component, lacks it, or has it with its change flag
//! set. A filter with no clauses selects every live entity.

use vstd::prelude::*;

use crate::world::World;

verus! {

/// One conjunct of a filter.
#[derive(Clone, Copy, PartialEq, Eq, Structural, Debug)]
pub enum Clause {
    /// The entity has a component of this kind.
    Has(usize),
    /// The entity has no component of this kind.
    HasNot(usize),
    /// The entity has a component of this kind and it is marked changed.
    Changed(usize),
}

impl Clause {
    /// The component kind the clause speaks of.
    pub open spec fn kind_of(self) -> int {
        match self {
            Clause::Has(c) => c as int,
            Clause::HasNot(c) => c as int,
            Clause::Changed(c) => c as int,
        }
    }

    /// The clause names a component kind the world knows.
    pub open spec fn wf(self, kinds: int) -> bool {
        self.kind_of() < kinds
    }

    /// Whether the clause holds of the entity in slot `i` of `w`.
    pub open spec fn holds_at(self, w: World, i: int) -> bool {
        match self {
            Clause::Has(c) => w.has_at(i, c as int),
            Clause::HasNot(c) => !w.has_at(i, c as int),
            Clause::Changed(c) => w.has_at(i, c as int) && w.changed_at(i, c as int),
        }
    }
}

/// A conjunction of clauses, selecting the live entities that satisfy all
/// of them.
#[derive(Debug)]
pub struct Filter {
    pub clauses: Vec<Clause>,
}

impl Filter {
    /// Every clause names a component kind the world knows.
    pub open spec fn wf(self, kinds: int) -> bool {
        forall|k: int| 0 <= k < self.clauses@.len() ==> self.clauses@[k].wf(kinds)
    }

    /// The entity in slot `i` of `w` is live and satisfies every clause.
    pub open spec fn matches_at(self, w: World, i: int) -> bool {
        &&& w.live_at(i)
        &&& forall|k: int| 0 <= k < self.clauses@.len() ==> self.clauses@[k].holds_at(w, i)
    }

    /// The filter with no clauses: selects every live entity.
    pub fn all() -> (f: Filter)
        ensures
            f.clauses@.len() == 0,
    {
        Filter { clauses: Vec::new() }
    }

    /// This filter with a `Has` clause appended.
    pub fn and_has(self, c: usize) -> (f: Filter)
        ensures
            f.clauses@ == self.clauses@.push(Clause::Has(c)),
    {
        let mut clauses = self.clauses;
        clauses.push(Clause::Has(c));
        Filter { clauses }
    }

    /// This filter with a `HasNot` clause appended.
    pub fn and_has_not(self, c: usize) -> (f: Filter)
        ensures
            f.clauses@ == self.clauses@.push(Clause::HasNot(c)),
    {
        let mut clauses = self.clauses;
        clauses.push(Clause::HasNot(c));
        Filter { clauses }
    }

    /// This filter with a `Changed` clause appended.
    pub fn and_changed(self, c: usize) -> (f: Filter)
        ensures
            f.clauses@ == self.clauses@.push(Clause::Changed(c)),
    {
        let mut clauses = self.clauses;
        clauses.push(Clause::Changed(c));
        Filter { clauses }
    }

    /// Evaluate the filter against slot `i` of `w`.
    pub fn matches_entity(&self, w: &World, i: usize) -> (r: bool)
        requires
            w.wf(),
            self.wf(w.component_kinds as int),
        ensures
            r == self.matches_at(*w, i as int),
    {
        if i >= w.slots.len() || !w.slots[i].alive {
            return false;
        }
        proof {
            assert(w.slot_wf(i as int));
        }
        let mut k: usize = 0;
        while k < self.clauses.len()
            invariant
                w.wf(),
                self.wf(w.component_kinds as int),
                (i as int) < w.num_slots(),
                w.slots@[i as int].alive,
                k <= self.clauses@.len(),
                forall|j: int| 0 <= j < k ==> self.clauses@[j].holds_at(*w, i as int),
            decreases self.clauses@.len() - k,
        {
            proof {
                assert(self.clauses@[k as int].wf(w.component_kinds as int));
                assert(w.slot_wf(i as int));
            }
            let ok = match self.clauses[k] {
                Clause::Has(c) => w.has_index(i, c),
                Clause::HasNot(c) => !w.has_index(i, c),
                Clause::Changed(c) => match w.slots[i].components[c] {
                    Some(cs) => cs.changed,
                    None => false,
                },
            };
            if !ok {
                return false;
            }
            k = k + 1;
        }
        true
    }
}

/// A filter reads only the slot it is applied to: two worlds with the same
/// component kinds that agree on slot `i` agree on whether it matches.
pub proof fn lemma_matches_local(f: Filter, w0: World, w1: World, i: int)
    requires
        0 <= i,
        w1.component_kinds == w0.component_kinds,
        (i < w0.num_slots()) == (i < w1.num_slots()),
        i < w0.num_slots() ==> w1.slots@[i].alive == w0.slots@[i].alive,
        i < w0.num_slots() ==> w1.slots@[i].components@ == w0.slots@[i].components@,
    ensures
        f.matches_at(w1, i) == f.matches_at(w0, i),
{
    assert(w1.live_at(i) == w0.live_at(i));
    if w0.live_at(i) {
        assert forall|k: int| 0 <= k < f.clauses@.len() implies (f.clauses@[k].holds_at(w1, i)
            == f.clauses@[k].holds_at(w0, i)) by {
            let cl = f.clauses@[k];
            assert(w1.has_at(i, cl.kind_of()) == w0.has_at(i, cl.kind_of()));
        }
    }
}

} // verus!
