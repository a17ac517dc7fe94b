use bevy_despawn_with::buffer::{ApplyFault, ScratchBuffer};
use bevy_despawn_with::command::{apply_command, Command};
use bevy_despawn_with::filter::Filter;
use bevy_despawn_with::queue::CommandQueue;
use bevy_despawn_with::world::World;

#[test]
fn drain_on_held_buffer_is_a_contention_fault() {
    let mut world = World::new(1);
    let e = world.spawn();
    world.insert(e, 0, 0);

    let mut buffer = ScratchBuffer::new();
    buffer.acquire().unwrap();

    let mut commands = CommandQueue::new();
    commands.despawn_all(Filter::all().and_has(0));
    let result = commands.drain_and_apply(&mut world, &mut buffer);

    assert!(matches!(result, Err(ApplyFault::BufferContended)));
    // the phase aborted before anything ran: the queue still holds the
    // command and the world is untouched
    assert_eq!(commands.len(), 1);
    assert!(world.alive(e));
}

#[test]
fn drain_on_poisoned_buffer_fails_fast() {
    let mut world = World::new(1);
    let e = world.spawn();
    world.insert(e, 0, 0);

    let mut buffer = ScratchBuffer::new();
    buffer.poison();

    let mut commands = CommandQueue::new();
    commands.despawn_all(Filter::all().and_has(0));
    let result = commands.drain_and_apply(&mut world, &mut buffer);

    assert!(matches!(result, Err(ApplyFault::BufferPoisoned)));
    assert!(world.alive(e));
}

#[test]
fn apply_command_reports_the_buffer_state() {
    let mut world = World::new(1);
    let mut buffer = ScratchBuffer::new();
    buffer.acquire().unwrap();
    let r = apply_command(&mut world, &mut buffer, Command::DespawnAll(Filter::all()));
    assert!(matches!(r, Err(ApplyFault::BufferContended)));

    let mut buffer = ScratchBuffer::new();
    buffer.poison();
    let r = apply_command(&mut world, &mut buffer, Command::DespawnAll(Filter::all()));
    assert!(matches!(r, Err(ApplyFault::BufferPoisoned)));
}

#[test]
fn buffer_cycle_releases_empty() {
    let mut world = World::new(1);
    let doomed = world.spawn();
    world.insert(doomed, 0, 0);

    let mut buffer = ScratchBuffer::new();
    let r = apply_command(
        &mut world,
        &mut buffer,
        Command::DespawnAll(Filter::all().and_has(0)),
    );
    assert!(r.is_ok());
    assert!(!world.alive(doomed));
    // the command released the buffer empty, so a second command can run
    let r = apply_command(&mut world, &mut buffer, Command::DespawnAll(Filter::all()));
    assert!(r.is_ok());
}

#[test]
fn acquire_after_poison_keeps_failing() {
    let mut buffer = ScratchBuffer::new();
    buffer.acquire().unwrap();
    buffer.poison();
    assert!(matches!(buffer.acquire(), Err(ApplyFault::BufferPoisoned)));
    assert!(matches!(buffer.acquire(), Err(ApplyFault::BufferPoisoned)));
}
