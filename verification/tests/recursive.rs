use bevy_despawn_with::buffer::ScratchBuffer;
use bevy_despawn_with::filter::Filter;
use bevy_despawn_with::queue::CommandQueue;
use bevy_despawn_with::world::World;

#[test]
fn recursive_despawn_takes_descendants() {
    let mut world = World::new(1);
    let root = world.spawn();
    world.insert(root, 0, 0);
    let child = world.spawn();
    let grandchild = world.spawn();
    let bystander = world.spawn();
    world.add_child(root, child);
    world.add_child(child, grandchild);

    let mut buffer = ScratchBuffer::new();
    let mut commands = CommandQueue::new();
    commands.despawn_all_recursive(Filter::all().and_has(0));
    commands.drain_and_apply(&mut world, &mut buffer).unwrap();

    assert!(!world.alive(root));
    assert!(!world.alive(child));
    assert!(!world.alive(grandchild));
    assert!(world.alive(bystander));
}

#[test]
fn plain_despawn_spares_descendants() {
    let mut world = World::new(1);
    let root = world.spawn();
    world.insert(root, 0, 0);
    let child = world.spawn();
    world.add_child(root, child);

    let mut buffer = ScratchBuffer::new();
    let mut commands = CommandQueue::new();
    commands.despawn_all(Filter::all().and_has(0));
    commands.drain_and_apply(&mut world, &mut buffer).unwrap();

    assert!(!world.alive(root));
    assert!(world.alive(child));
}

#[test]
fn recursive_despawn_handles_cycles() {
    // two entities that list each other as children: the seen-set stops
    // the traversal, and both fall
    let mut world = World::new(1);
    let first = world.spawn();
    world.insert(first, 0, 0);
    let second = world.spawn();
    world.add_child(first, second);
    world.add_child(second, first);

    let mut buffer = ScratchBuffer::new();
    let mut commands = CommandQueue::new();
    commands.despawn_all_recursive(Filter::all().and_has(0));
    commands.drain_and_apply(&mut world, &mut buffer).unwrap();

    assert!(!world.alive(first));
    assert!(!world.alive(second));
}

#[test]
fn recursive_despawn_deduplicates_matching_descendants() {
    // the child matches the filter itself and is also a descendant of a
    // match; it is despawned once and the command completes cleanly
    let mut world = World::new(1);
    let root = world.spawn();
    world.insert(root, 0, 0);
    let child = world.spawn();
    world.insert(child, 0, 0);
    world.add_child(root, child);

    let mut buffer = ScratchBuffer::new();
    let mut commands = CommandQueue::new();
    commands.despawn_all_recursive(Filter::all().and_has(0));
    commands.drain_and_apply(&mut world, &mut buffer).unwrap();

    assert!(!world.alive(root));
    assert!(!world.alive(child));
    assert_eq!(world.slot_count(), 2);
}

#[test]
fn recursive_despawn_skips_stale_child_links() {
    // the link to an already-despawned child is stale: the cascade skips
    // it, and an unrelated later entity in the same slot range survives
    let mut world = World::new(1);
    let root = world.spawn();
    world.insert(root, 0, 0);
    let child = world.spawn();
    world.add_child(root, child);
    world.despawn(child);
    let unrelated = world.spawn();

    let mut buffer = ScratchBuffer::new();
    let mut commands = CommandQueue::new();
    commands.despawn_all_recursive(Filter::all().and_has(0));
    commands.drain_and_apply(&mut world, &mut buffer).unwrap();

    assert!(!world.alive(root));
    assert!(world.alive(unrelated));
}

#[test]
fn recursive_despawn_shared_descendant() {
    // one child under two matching parents falls once, with no error
    let mut world = World::new(1);
    let left = world.spawn();
    world.insert(left, 0, 0);
    let right = world.spawn();
    world.insert(right, 0, 0);
    let shared = world.spawn();
    world.add_child(left, shared);
    world.add_child(right, shared);

    let mut buffer = ScratchBuffer::new();
    let mut commands = CommandQueue::new();
    commands.despawn_all_recursive(Filter::all().and_has(0));
    commands.drain_and_apply(&mut world, &mut buffer).unwrap();

    assert!(!world.alive(left));
    assert!(!world.alive(right));
    assert!(!world.alive(shared));
}
