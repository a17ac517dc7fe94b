use bevy_despawn_with::buffer::ScratchBuffer;
use bevy_despawn_with::filter::Filter;
use bevy_despawn_with::predicate::Predicate;
use bevy_despawn_with::queue::CommandQueue;
use bevy_despawn_with::world::{Entity, World};

fn count_alive(world: &World, people: &[Entity]) -> usize {
    people.iter().filter(|e| world.alive(**e)).count()
}

#[test]
fn retain_below_bound_without_marker() {
    // 20 entities with X(n) for n = 0..20 and 20 with X(n) plus Y;
    // retaining X below 10 among the Y-less leaves 10 of them, and the
    // 20 carrying Y untouched
    let x: usize = 0;
    let y: usize = 1;
    let mut world = World::new(2);
    let mut people = vec![];
    for n in 0..20 {
        let e = world.spawn();
        world.insert(e, x, n);
        people.push(e);
    }
    for n in 0..20 {
        let e = world.spawn();
        world.insert(e, x, n);
        world.insert(e, y, 0);
        people.push(e);
    }

    let mut buffer = ScratchBuffer::new();
    let mut commands = CommandQueue::new();
    commands.retain(x, Predicate::KeepLess(10), Filter::all().and_has_not(y));
    commands.drain_and_apply(&mut world, &mut buffer).unwrap();

    let x_without_y = people
        .iter()
        .filter(|e| world.has(**e, x) && !world.has(**e, y))
        .count();
    let x_with_y = people
        .iter()
        .filter(|e| world.has(**e, x) && world.has(**e, y))
        .count();
    assert_eq!(x_without_y, 10);
    assert_eq!(x_with_y, 20);
    assert_eq!(count_alive(&world, &people), 30);
    for e in &people {
        if world.alive(*e) && !world.has(*e, y) {
            assert!(world.get_value(*e, x).unwrap() < 10);
        }
    }
}

#[test]
fn retain_mut_ticking_timers() {
    // timers 1..=10, each tick subtracts one and despawns the expired:
    // after k ticks exactly the timers that started at or below k are
    // gone, and after 10 ticks none remain
    let timer: usize = 0;
    let mut world = World::new(1);
    let mut people = vec![];
    for n in 1..=10 {
        let e = world.spawn();
        world.insert(e, timer, n);
        people.push(e);
    }
    let mut buffer = ScratchBuffer::new();

    for k in 1..=10 {
        let mut commands = CommandQueue::new();
        commands.retain_mut(timer, Predicate::DecrementKeepPositive(1), Filter::all());
        commands.drain_and_apply(&mut world, &mut buffer).unwrap();

        for (idx, e) in people.iter().enumerate() {
            let n = (idx + 1) as i64;
            assert_eq!(world.alive(*e), n > k);
            if n > k {
                assert_eq!(world.get_value(*e, timer), Some(n - k));
            }
        }
    }
    assert_eq!(count_alive(&world, &people), 0);
}

#[test]
fn retain_mut_mutation_observable_on_survivor() {
    let timer: usize = 0;
    let mut world = World::new(1);
    let e = world.spawn();
    world.insert(e, timer, 5);

    let mut buffer = ScratchBuffer::new();
    let mut commands = CommandQueue::new();
    commands.retain_mut(timer, Predicate::DecrementKeepPositive(1), Filter::all());
    commands.drain_and_apply(&mut world, &mut buffer).unwrap();

    assert!(world.alive(e));
    assert_eq!(world.get_value(e, timer), Some(4));
}

#[test]
fn retain_without_mutable_access_leaves_values() {
    let c: usize = 0;
    let mut world = World::new(1);
    let keeper = world.spawn();
    world.insert(keeper, c, 3);
    let goner = world.spawn();
    world.insert(goner, c, 12);
    let uninvolved = world.spawn();

    let mut buffer = ScratchBuffer::new();
    let mut commands = CommandQueue::new();
    commands.retain(c, Predicate::KeepLess(10), Filter::all());
    commands.drain_and_apply(&mut world, &mut buffer).unwrap();

    assert!(world.alive(keeper));
    assert_eq!(world.get_value(keeper, c), Some(3));
    assert!(!world.alive(goner));
    assert!(world.alive(uninvolved));
}

#[test]
fn retain_keep_at_least_bound() {
    let c: usize = 0;
    let mut world = World::new(1);
    let low = world.spawn();
    world.insert(low, c, 1);
    let high = world.spawn();
    world.insert(high, c, 7);

    let mut buffer = ScratchBuffer::new();
    let mut commands = CommandQueue::new();
    commands.retain(c, Predicate::KeepAtLeast(5), Filter::all());
    commands.drain_and_apply(&mut world, &mut buffer).unwrap();

    assert!(!world.alive(low));
    assert!(world.alive(high));
}

#[test]
fn retain_recursive_takes_descendants_of_rejected() {
    let timer: usize = 0;
    let mut world = World::new(1);
    let expiring = world.spawn();
    world.insert(expiring, timer, 1);
    let child = world.spawn();
    world.add_child(expiring, child);
    let surviving = world.spawn();
    world.insert(surviving, timer, 9);
    let surviving_child = world.spawn();
    world.add_child(surviving, surviving_child);

    let mut buffer = ScratchBuffer::new();
    let mut commands = CommandQueue::new();
    commands.retain_recursive(timer, Predicate::KeepAtLeast(5), Filter::all());
    commands.drain_and_apply(&mut world, &mut buffer).unwrap();

    assert!(!world.alive(expiring));
    assert!(!world.alive(child));
    assert!(world.alive(surviving));
    assert!(world.alive(surviving_child));
}

#[test]
fn retain_recursive_mut_mutates_then_cascades() {
    let timer: usize = 0;
    let mut world = World::new(1);
    let expiring = world.spawn();
    world.insert(expiring, timer, 1);
    let child = world.spawn();
    world.add_child(expiring, child);
    let ticking = world.spawn();
    world.insert(ticking, timer, 3);

    let mut buffer = ScratchBuffer::new();
    let mut commands = CommandQueue::new();
    commands.retain_recursive_mut(timer, Predicate::DecrementKeepPositive(1), Filter::all());
    commands.drain_and_apply(&mut world, &mut buffer).unwrap();

    assert!(!world.alive(expiring));
    assert!(!world.alive(child));
    assert!(world.alive(ticking));
    assert_eq!(world.get_value(ticking, timer), Some(2));
}

#[test]
fn retain_saturates_at_the_integer_floor() {
    let c: usize = 0;
    let mut world = World::new(1);
    let e = world.spawn();
    world.insert(e, c, i64::MIN + 1);

    let mut buffer = ScratchBuffer::new();
    let mut commands = CommandQueue::new();
    commands.retain_mut(c, Predicate::DecrementKeepPositive(5), Filter::all());
    commands.drain_and_apply(&mut world, &mut buffer).unwrap();

    // the decrement saturates instead of wrapping, so the result is
    // negative and the entity is despawned rather than kept
    assert!(!world.alive(e));
}
