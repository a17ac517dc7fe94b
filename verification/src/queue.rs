//! The command queue: deferred commands recorded in enqueue order and
//! drained front to back at a synchronization point.
//!
//! Enqueueing never blocks and never fails. Draining applies each command
//! fully — scan, optional cascade, action, buffer release — before the
//! next one starts, and consumes every command exactly once. A held or
//! poisoned scratch buffer aborts the apply phase before any command runs.

use vstd::prelude::*;

use crate::buffer::{ApplyFault, BufferState, ScratchBuffer};
use crate::command::{apply_command, command_effect, Command};
use crate::filter::{Clause, Filter};
use crate::predicate::Predicate;
use crate::world::World;

verus! {

/// The commands recorded in `cmds`, applied in order, take the world from
/// `w0` to `w1`.
pub open spec fn queue_effect(cmds: Seq<Command>, w0: World, w1: World) -> bool
    decreases cmds.len(),
{
    if cmds.len() == 0 {
        w1 == w0
    } else {
        exists|wm: World| #[trigger]
            command_effect(w0, cmds[0], wm) && queue_effect(cmds.drop_first(), wm, w1)
    }
}

/// Appending one more applied command to an applied prefix applies the
/// whole sequence.
proof fn lemma_queue_effect_snoc(cmds: Seq<Command>, w0: World, wm: World, c: Command, w1: World)
    requires
        queue_effect(cmds, w0, wm),
        command_effect(wm, c, w1),
    ensures
        queue_effect(cmds.push(c), w0, w1),
    decreases cmds.len(),
{
    if cmds.len() == 0 {
        assert(wm == w0);
        assert(cmds.push(c).drop_first() =~= Seq::<Command>::empty());
        assert(command_effect(w0, cmds.push(c)[0], w1));
        assert(queue_effect(cmds.push(c).drop_first(), w1, w1));
    } else {
        let wmid = choose|x: World| #[trigger]
            command_effect(w0, cmds[0], x) && queue_effect(cmds.drop_first(), x, wm);
        lemma_queue_effect_snoc(cmds.drop_first(), wmid, wm, c, w1);
        assert(cmds.push(c).drop_first() =~= cmds.drop_first().push(c));
        assert(command_effect(w0, cmds.push(c)[0], wmid) && queue_effect(
            cmds.push(c).drop_first(),
            wmid,
            w1,
        ));
    }
}

/// Draining a one-command queue applies exactly that command.
pub proof fn lemma_queue_effect_single(cmds: Seq<Command>, w0: World, w1: World)
    requires
        cmds.len() == 1,
        queue_effect(cmds, w0, w1),
    ensures
        command_effect(w0, cmds[0], w1),
{
    let wm = choose|wm: World| #[trigger]
        command_effect(w0, cmds[0], wm) && queue_effect(cmds.drop_first(), wm, w1);
    assert(queue_effect(cmds.drop_first(), wm, w1));
}

/// An ordered list of pending commands.
pub struct CommandQueue {
    pub commands: Vec<Command>,
}

impl CommandQueue {
    /// Every queued command names only component kinds the world knows.
    pub open spec fn wf(self, kinds: int) -> bool {
        forall|k: int| 0 <= k < self.commands@.len() ==> self.commands@[k].wf(kinds)
    }

    /// An empty queue.
    pub fn new() -> (q: CommandQueue)
        ensures
            q.commands@.len() == 0,
    {
        CommandQueue { commands: Vec::new() }
    }

    /// Number of pending commands.
    pub fn len(&self) -> (n: usize)
        ensures
            n == self.commands@.len(),
    {
        self.commands.len()
    }

    /// Append one command; never blocks, never fails, accepts any variant.
    pub fn enqueue(&mut self, cmd: Command)
        ensures
            final(self).commands@ == old(self).commands@.push(cmd),
    {
        self.commands.push(cmd);
    }

    /// Queue a despawn of every entity the filter selects.
    pub fn despawn_all(&mut self, filter: Filter)
        ensures
            final(self).commands@ == old(self).commands@.push(Command::DespawnAll(filter)),
    {
        self.commands.push(Command::DespawnAll(filter));
    }

    /// Queue a despawn of every entity the filter selects together with
    /// all their descendants, matching or not.
    pub fn despawn_all_recursive(&mut self, filter: Filter)
        ensures
            final(self).commands@ == old(self).commands@.push(
                Command::DespawnAllRecursive(filter),
            ),
    {
        self.commands.push(Command::DespawnAllRecursive(filter));
    }

    /// Queue a despawn of every entity that has all the listed component
    /// kinds: sugar for `despawn_all` with a conjunctive `Has` filter.
    pub fn despawn_with_all(&mut self, components: &Vec<usize>)
        ensures
            final(self).commands@.len() == old(self).commands@.len() + 1,
            forall|k: int|
                0 <= k < old(self).commands@.len() ==> final(self).commands@[k] == old(
                    self,
                ).commands@[k],
            final(self).commands@.last() is DespawnAll,
            ({
                let f = final(self).commands@.last()->DespawnAll_0;
                &&& f.clauses@.len() == components@.len()
                &&& forall|k: int|
                    0 <= k < components@.len() ==> f.clauses@[k] == Clause::Has(components@[k])
            }),
    {
        let mut filter = Filter::all();
        let mut k: usize = 0;
        while k < components.len()
            invariant
                k <= components@.len(),
                filter.clauses@.len() == k,
                forall|j: int|
                    0 <= j < k ==> filter.clauses@[j] == Clause::Has(components@[j]),
            decreases components@.len() - k,
        {
            filter = filter.and_has(components[k]);
            k = k + 1;
        }
        self.commands.push(Command::DespawnAll(filter));
    }

    /// Queue a removal of the component kind from every entity that has
    /// it.
    pub fn remove_all(&mut self, component: usize)
        ensures
            final(self).commands@.len() == old(self).commands@.len() + 1,
            forall|k: int|
                0 <= k < old(self).commands@.len() ==> final(self).commands@[k] == old(
                    self,
                ).commands@[k],
            final(self).commands@.last() is RemoveAll,
            final(self).commands@.last()->RemoveAll_0 == component,
            final(self).commands@.last()->RemoveAll_1.clauses@.len() == 0,
    {
        self.commands.push(Command::RemoveAll(component, Filter::all()));
    }

    /// Queue a removal of the component kind from every entity that has
    /// it and matches the filter.
    pub fn remove_all_filtered(&mut self, component: usize, filter: Filter)
        ensures
            final(self).commands@ == old(self).commands@.push(
                Command::RemoveAll(component, filter),
            ),
    {
        self.commands.push(Command::RemoveAll(component, filter));
    }

    /// Queue a retain: examined entities survive exactly while the
    /// predicate keeps them; the component is not mutated.
    pub fn retain(&mut self, component: usize, predicate: Predicate, filter: Filter)
        ensures
            final(self).commands@ == old(self).commands@.push(
                Command::Retain { component, predicate, filter, mutate: false, recursive: false },
            ),
    {
        self.commands.push(
            Command::Retain { component, predicate, filter, mutate: false, recursive: false },
        );
    }

    /// Queue a retain that despawns each rejected entity together with
    /// all its descendants.
    pub fn retain_recursive(&mut self, component: usize, predicate: Predicate, filter: Filter)
        ensures
            final(self).commands@ == old(self).commands@.push(
                Command::Retain { component, predicate, filter, mutate: false, recursive: true },
            ),
    {
        self.commands.push(
            Command::Retain { component, predicate, filter, mutate: false, recursive: true },
        );
    }

    /// Queue a mutable retain: the predicate's mutation is stored on every
    /// examined entity before the keep decision is read.
    pub fn retain_mut(&mut self, component: usize, predicate: Predicate, filter: Filter)
        ensures
            final(self).commands@ == old(self).commands@.push(
                Command::Retain { component, predicate, filter, mutate: true, recursive: false },
            ),
    {
        self.commands.push(
            Command::Retain { component, predicate, filter, mutate: true, recursive: false },
        );
    }

    /// Queue a mutable retain that despawns each rejected entity together
    /// with all its descendants.
    pub fn retain_recursive_mut(&mut self, component: usize, predicate: Predicate, filter: Filter)
        ensures
            final(self).commands@ == old(self).commands@.push(
                Command::Retain { component, predicate, filter, mutate: true, recursive: true },
            ),
    {
        self.commands.push(
            Command::Retain { component, predicate, filter, mutate: true, recursive: true },
        );
    }

    /// Drain the queue at a synchronization point: apply every pending
    /// command front to back, each one fully before the next, and leave
    /// the queue empty. Succeeds exactly when the scratch buffer is free;
    /// a held or poisoned buffer aborts the whole phase before any command
    /// runs, leaving queue, world and buffer untouched.
    pub fn drain_and_apply(&mut self, world: &mut World, buffer: &mut ScratchBuffer) -> (r: Result<
        (),
        ApplyFault,
    >)
        requires
            old(world).wf(),
            old(self).wf(old(world).component_kinds as int),
            old(buffer).inv(),
        ensures
            final(world).wf(),
            final(buffer).inv(),
            r is Ok <==> old(buffer).state is Free,
            r is Ok ==> queue_effect(old(self).commands@, *old(world), *final(world))
                && final(self).commands@.len() == 0 && final(buffer).state is Free
                && final(buffer).entries@.len() == 0,
            r is Err ==> *final(world) == *old(world) && *final(self) == *old(self)
                && *final(buffer) == *old(buffer),
            old(buffer).state is Held ==> r == Err::<(), ApplyFault>(ApplyFault::BufferContended),
            old(buffer).state is Poisoned ==> r == Err::<(), ApplyFault>(
                ApplyFault::BufferPoisoned,
            ),
    {
        match buffer.state {
            BufferState::Held => {
                return Err(ApplyFault::BufferContended);
            },
            BufferState::Poisoned => {
                return Err(ApplyFault::BufferPoisoned);
            },
            BufferState::Free => {},
        }
        let ghost w_start = *world;
        let ghost cmds = self.commands@;
        let n = self.commands.len();
        let mut t: usize = 0;
        while t < n
            invariant
                world.wf(),
                world.component_kinds == w_start.component_kinds,
                buffer.inv(),
                buffer.state is Free,
                buffer.entries@.len() == 0,
                t <= n,
                n == cmds.len(),
                self.commands@ == cmds.subrange(t as int, n as int),
                forall|k: int| 0 <= k < cmds.len() ==> cmds[k].wf(w_start.component_kinds as int),
                queue_effect(cmds.subrange(0, t as int), w_start, *world),
            decreases n - t,
        {
            let ghost prev = *world;
            let cmd = self.commands.remove(0);
            proof {
                assert(cmd == cmds[t as int]);
                assert(self.commands@ =~= cmds.subrange(t + 1, n as int));
            }
            match apply_command(world, buffer, cmd) {
                Ok(()) => {},
                Err(_) => {
                    // the buffer was free, so the command cannot fail
                    proof {
                        assert(false);
                    }
                },
            }
            proof {
                lemma_queue_effect_snoc(
                    cmds.subrange(0, t as int),
                    w_start,
                    prev,
                    cmds[t as int],
                    *world,
                );
                assert(cmds.subrange(0, t + 1) =~= cmds.subrange(0, t as int).push(
                    cmds[t as int],
                ));
            }
            t = t + 1;
        }
        proof {
            assert(cmds.subrange(0, n as int) =~= cmds);
            assert(self.commands@ =~= Seq::<Command>::empty());
        }
        Ok(())
    }
}

} // verus!
