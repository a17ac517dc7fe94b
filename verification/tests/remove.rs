use bevy_despawn_with::buffer::ScratchBuffer;
use bevy_despawn_with::filter::Filter;
use bevy_despawn_with::queue::CommandQueue;
use bevy_despawn_with::world::{Entity, World};

fn count_alive(world: &World, people: &[Entity]) -> usize {
    people.iter().filter(|e| world.alive(**e)).count()
}

#[test]
fn remove_all_detaches_but_keeps_entities() {
    let c: usize = 0;
    let mut world = World::new(1);
    let mut people = vec![];
    for i in 0..8 {
        let e = world.spawn();
        if i % 2 == 0 {
            world.insert(e, c, i);
        }
        people.push(e);
    }

    let mut buffer = ScratchBuffer::new();
    let mut commands = CommandQueue::new();
    commands.remove_all(c);
    commands.drain_and_apply(&mut world, &mut buffer).unwrap();

    assert_eq!(count_alive(&world, &people), 8);
    for e in &people {
        assert!(!world.has(*e, c));
    }
}

#[test]
fn remove_all_filtered_touches_only_matches() {
    let c: usize = 0;
    let marker: usize = 1;
    let mut world = World::new(2);
    let marked = world.spawn();
    world.insert(marked, c, 5);
    world.insert(marked, marker, 0);
    let unmarked = world.spawn();
    world.insert(unmarked, c, 7);
    let bare = world.spawn();

    let mut buffer = ScratchBuffer::new();
    let mut commands = CommandQueue::new();
    commands.remove_all_filtered(c, Filter::all().and_has(marker));
    commands.drain_and_apply(&mut world, &mut buffer).unwrap();

    // entity count unchanged; only the marked entity lost the component
    assert!(world.alive(marked) && world.alive(unmarked) && world.alive(bare));
    assert!(!world.has(marked, c));
    assert!(world.has(marked, marker));
    assert_eq!(world.get_value(unmarked, c), Some(7));
    assert!(!world.has(bare, c));
}

#[test]
fn remove_component_directly_is_idempotent() {
    let mut world = World::new(1);
    let e = world.spawn();
    world.insert(e, 0, 1);
    assert!(world.remove_component(e, 0));
    assert!(!world.remove_component(e, 0));
    assert!(world.alive(e));
    assert!(!world.has(e, 0));
}
