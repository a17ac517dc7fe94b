//! The scratch buffer: a reusable entity-id list that one command at a
//! time borrows exclusively for its scan, cascade and action phases.
//!
//! The buffer must be empty before and after every command, so no command
//! ever observes entries left by another. Acquiring it while it is held is
//! a logic fault (reentrant command application) and fails loudly; a
//! poisoned buffer — one a failed command may have left entries in — makes
//! every later acquisition fail fast instead of silently acting on them.

use vstd::prelude::*;

use crate::world::Entity;

verus! {

/// Where the buffer stands in its acquire/release cycle.
#[derive(Clone, Copy, PartialEq, Eq, Structural, Debug)]
pub enum BufferState {
    /// Not held by any command; guaranteed empty.
    Free,
    /// Exclusively held by the command currently applying.
    Held,
    /// A command aborted while holding it; its entries are suspect.
    Poisoned,
}

/// A fault surfaced to the host when a command cannot run safely.
#[derive(Clone, Copy, PartialEq, Eq, Structural, Debug)]
pub enum ApplyFault {
    /// The scratch buffer was already held: reentrant command application.
    BufferContended,
    /// The scratch buffer was poisoned by an earlier aborted command.
    BufferPoisoned,
}

/// The reusable, exclusively borrowed entity-id list.
pub struct ScratchBuffer {
    pub entries: Vec<Entity>,
    pub state: BufferState,
}

impl ScratchBuffer {
    /// A free buffer holds no entries.
    pub open spec fn inv(self) -> bool {
        self.state is Free ==> self.entries@.len() == 0
    }

    /// A fresh, free, empty buffer.
    pub fn new() -> (b: ScratchBuffer)
        ensures
            b.inv(),
            b.state is Free,
            b.entries@.len() == 0,
    {
        ScratchBuffer { entries: Vec::new(), state: BufferState::Free }
    }

    /// Take exclusive hold of the buffer for one command. Fails loudly if
    /// it is already held or poisoned, and succeeds exactly on a free
    /// buffer, which is then held and still empty.
    pub fn acquire(&mut self) -> (r: Result<(), ApplyFault>)
        requires
            old(self).inv(),
        ensures
            final(self).inv(),
            r is Ok <==> old(self).state is Free,
            r is Ok ==> final(self).state is Held && final(self).entries@.len() == 0,
            r is Err ==> *final(self) == *old(self),
            old(self).state is Held ==> r == Err::<(), ApplyFault>(ApplyFault::BufferContended),
            old(self).state is Poisoned ==> r == Err::<(), ApplyFault>(ApplyFault::BufferPoisoned),
    {
        match self.state {
            BufferState::Free => {
                self.state = BufferState::Held;
                Ok(())
            },
            BufferState::Held => Err(ApplyFault::BufferContended),
            BufferState::Poisoned => Err(ApplyFault::BufferPoisoned),
        }
    }

    /// Append an entity id while holding the buffer.
    pub fn push(&mut self, e: Entity)
        requires
            old(self).state is Held,
        ensures
            final(self).state is Held,
            final(self).entries@ == old(self).entries@.push(e),
    {
        self.entries.push(e);
    }

    /// Number of entries currently buffered.
    pub fn len(&self) -> (n: usize)
        ensures
            n == self.entries@.len(),
    {
        self.entries.len()
    }

    /// The entry at position `k`.
    pub fn get(&self, k: usize) -> (e: Entity)
        requires
            (k as int) < self.entries@.len(),
        ensures
            e == self.entries@[k as int],
    {
        self.entries[k]
    }

    /// Release the buffer at the end of a command, discarding whatever the
    /// command buffered: the next command starts with an empty buffer.
    pub fn release(&mut self)
        requires
            old(self).state is Held,
        ensures
            final(self).inv(),
            final(self).state is Free,
            final(self).entries@.len() == 0,
    {
        self.entries.clear();
        self.state = BufferState::Free;
    }

    /// Mark the buffer poisoned: a command holding it aborted and its
    /// entries can no longer be trusted. Every later acquisition fails
    /// until the host replaces the buffer.
    pub fn poison(&mut self)
        ensures
            final(self).inv(),
            final(self).state is Poisoned,
            final(self).entries@ == old(self).entries@,
    {
        self.state = BufferState::Poisoned;
    }
}

} // verus!
