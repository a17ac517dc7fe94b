use bevy_despawn_with::buffer::ScratchBuffer;
use bevy_despawn_with::filter::Filter;
use bevy_despawn_with::queue::CommandQueue;
use bevy_despawn_with::world::{Entity, World};

fn count_alive(world: &World, people: &[Entity]) -> usize {
    people.iter().filter(|e| world.alive(**e)).count()
}

fn count_with(world: &World, people: &[Entity], c: usize) -> usize {
    people.iter().filter(|e| world.has(**e, c)).count()
}

#[test]
fn despawn_all_marked_entities() {
    let mut world = World::new(1);
    let mut people = vec![];
    for _ in 0..777 + 666 {
        people.push(world.spawn());
    }

    for i in 0..666 {
        world.insert(people[i], 0, 0);
    }

    let mut buffer = ScratchBuffer::new();
    let mut commands = CommandQueue::new();
    commands.despawn_all(Filter::all().and_has(0));
    let result = commands.drain_and_apply(&mut world, &mut buffer);

    assert!(result.is_ok());
    assert_eq!(count_alive(&world, &people), 777);
    assert_eq!(count_with(&world, &people, 0), 0);
}

#[test]
fn despawn_all_conjunction_counts() {
    // 10 entities with {A}, 10 with {B}, 10 with {A,B}; despawning
    // has-A-and-has-B leaves 10 of each single kind, 20 in total
    let a: usize = 0;
    let b: usize = 1;
    let mut world = World::new(2);
    let mut people = vec![];
    for i in 0..30 {
        let e = world.spawn();
        if i < 10 || i >= 20 {
            world.insert(e, a, 0);
        }
        if i >= 10 {
            world.insert(e, b, 0);
        }
        people.push(e);
    }
    let mut buffer = ScratchBuffer::new();
    let mut commands = CommandQueue::new();
    commands.despawn_all(Filter::all().and_has(a).and_has(b));
    commands.drain_and_apply(&mut world, &mut buffer).unwrap();

    assert_eq!(count_with(&world, &people, a), 10);
    assert_eq!(count_with(&world, &people, b), 10);
    assert_eq!(
        people
            .iter()
            .filter(|e| world.has(**e, a) && world.has(**e, b))
            .count(),
        0
    );
    assert_eq!(count_alive(&world, &people), 20);
}

#[test]
fn despawn_with_all_sugar() {
    let mut world = World::new(2);
    let both = world.spawn();
    world.insert(both, 0, 0);
    world.insert(both, 1, 0);
    let only_first = world.spawn();
    world.insert(only_first, 0, 0);

    let mut buffer = ScratchBuffer::new();
    let mut commands = CommandQueue::new();
    commands.despawn_with_all(&vec![0, 1]);
    commands.drain_and_apply(&mut world, &mut buffer).unwrap();

    assert!(!world.alive(both));
    assert!(world.alive(only_first));
}

#[test]
fn despawn_all_is_idempotent() {
    let mut world = World::new(1);
    let mut people = vec![];
    for i in 0..6 {
        let e = world.spawn();
        if i % 2 == 0 {
            world.insert(e, 0, 0);
        }
        people.push(e);
    }
    let mut buffer = ScratchBuffer::new();

    let mut commands = CommandQueue::new();
    commands.despawn_all(Filter::all().and_has(0));
    commands.drain_and_apply(&mut world, &mut buffer).unwrap();
    assert_eq!(count_alive(&world, &people), 3);

    let mut commands = CommandQueue::new();
    commands.despawn_all(Filter::all().and_has(0));
    commands.drain_and_apply(&mut world, &mut buffer).unwrap();
    assert_eq!(count_alive(&world, &people), 3);
    for e in &people {
        if world.alive(*e) {
            assert!(!world.has(*e, 0));
        }
    }
}

#[test]
fn despawn_all_has_not_filter() {
    let mut world = World::new(1);
    let with = world.spawn();
    world.insert(with, 0, 0);
    let without = world.spawn();

    let mut buffer = ScratchBuffer::new();
    let mut commands = CommandQueue::new();
    commands.despawn_all(Filter::all().and_has_not(0));
    commands.drain_and_apply(&mut world, &mut buffer).unwrap();

    assert!(world.alive(with));
    assert!(!world.alive(without));
}

#[test]
fn despawn_all_changed_filter() {
    let mut world = World::new(1);
    let stale = world.spawn();
    world.insert(stale, 0, 1);
    let touched = world.spawn();
    world.insert(touched, 0, 2);

    // a tick boundary clears every change flag; then only one component
    // is written again
    world.clear_changed();
    world.insert(touched, 0, 3);

    let mut buffer = ScratchBuffer::new();
    let mut commands = CommandQueue::new();
    commands.despawn_all(Filter::all().and_changed(0));
    commands.drain_and_apply(&mut world, &mut buffer).unwrap();

    assert!(world.alive(stale));
    assert!(!world.alive(touched));
}

#[test]
fn empty_filter_matches_every_live_entity() {
    let mut world = World::new(1);
    let first = world.spawn();
    let second = world.spawn();

    let mut buffer = ScratchBuffer::new();
    let mut commands = CommandQueue::new();
    commands.despawn_all(Filter::all());
    commands.drain_and_apply(&mut world, &mut buffer).unwrap();

    assert!(!world.alive(first));
    assert!(!world.alive(second));
    assert_eq!(world.slot_count(), 2);
}

#[test]
fn despawn_of_stale_handle_is_noop() {
    let mut world = World::new(1);
    let e = world.spawn();
    assert!(world.despawn(e));
    assert!(!world.despawn(e));
    assert!(!world.alive(e));
}

#[test]
fn commands_apply_in_enqueue_order() {
    // removing the component before the despawn scans means the despawn
    // finds nothing; the reverse order would kill the entity
    let mut world = World::new(1);
    let e = world.spawn();
    world.insert(e, 0, 0);

    let mut buffer = ScratchBuffer::new();
    let mut commands = CommandQueue::new();
    commands.remove_all(0);
    commands.despawn_all(Filter::all().and_has(0));
    commands.drain_and_apply(&mut world, &mut buffer).unwrap();
    assert!(world.alive(e));

    let f = world.spawn();
    world.insert(f, 0, 0);
    let mut commands = CommandQueue::new();
    commands.despawn_all(Filter::all().and_has(0));
    commands.remove_all(0);
    commands.drain_and_apply(&mut world, &mut buffer).unwrap();
    assert!(!world.alive(f));
}
