use evergreen_relations::event::RelationEvent;
use evergreen_relations::related::Related;
use evergreen_relations::relation::{ContainerKind, Relation, Side};
use evergreen_relations::world::RelationWorld;

fn one(e: usize) -> Related {
    Related::new(ContainerKind::Singleton, e)
}

#[test]
fn repeated_install_collapses_to_one_event() {
    let mut world = RelationWorld::new(Relation::new_symmetric(ContainerKind::Singleton));
    let a = world.spawn();
    let b = world.spawn();

    world.insert(a, Side::Source, one(b));
    world.insert(a, Side::Source, one(b));
    world.insert(a, Side::Source, one(b));
    world.insert(a, Side::Source, one(b));
    world.flush();

    assert_eq!(world.get(b, Side::Source), Some(&one(a)));
    assert_eq!(world.drain_events(), vec![RelationEvent::Added(a, b)]);
}

#[test]
fn interleaved_install_remove_is_net_zero() {
    let mut world = RelationWorld::new(Relation::new_symmetric(ContainerKind::Singleton));
    let a = world.spawn();
    let b = world.spawn();

    for _ in 0..5 {
        world.insert(a, Side::Source, one(b));
        world.remove(a, Side::Source);
    }
    world.flush();

    assert_eq!(world.get(a, Side::Source), None);
    assert_eq!(world.get(b, Side::Source), None);
    assert_eq!(world.drain_events(), Vec::<RelationEvent>::new());
}

#[test]
fn replacement_is_a_diff() {
    let mut world = RelationWorld::new(
        Relation::new_directed(ContainerKind::UnboundedList, ContainerKind::UnboundedList),
    );
    let a = world.spawn();
    let b = world.spawn();
    let c = world.spawn();
    let d = world.spawn();

    world.insert(
        a,
        Side::Source,
        Related::from_iter(ContainerKind::UnboundedList, &vec![b, c]),
    );
    world.flush();
    world.drain_events();

    let c_mirror_before = world.get(c, Side::Target).map(|r| r.iter());

    world.insert(
        a,
        Side::Source,
        Related::from_iter(ContainerKind::UnboundedList, &vec![c, d]),
    );
    world.flush();

    // the edge kept in both values is untouched: no event for c
    assert_eq!(
        world.drain_events(),
        vec![RelationEvent::Removed(a, b), RelationEvent::Added(a, d)]
    );
    assert_eq!(world.get(c, Side::Target).map(|r| r.iter()), c_mirror_before);
    assert_eq!(world.get(b, Side::Target), None);
    assert_eq!(world.get(d, Side::Target).map(|r| r.iter()), Some(vec![a]));
}

#[test]
fn emptying_cascade_deletes_the_record() {
    let mut world = RelationWorld::new(
        Relation::new_directed(ContainerKind::Singleton, ContainerKind::BoundedList),
    );
    let a = world.spawn();
    let b = world.spawn();
    world.insert(b, Side::Source, one(a));
    world.flush();

    assert_eq!(world.get(a, Side::Target).map(|r| r.iter()), Some(vec![b]));

    // removing the last back-reference deletes the mirror record entirely
    world.remove(b, Side::Source);
    world.flush();
    assert_eq!(world.get(a, Side::Target), None);
}

#[test]
fn singleton_mirror_eviction_tears_down_the_loser() {
    let mut world = RelationWorld::new(Relation::new_symmetric(ContainerKind::Singleton));
    let a = world.spawn();
    let b = world.spawn();
    let c = world.spawn();

    // both c and b claim a before one flush; the later write wins a's
    // singleton mirror and the evicted edge is torn down
    world.insert(c, Side::Source, one(a));
    world.insert(b, Side::Source, one(a));
    world.flush();

    assert_eq!(world.get(a, Side::Source), Some(&one(b)));
    assert_eq!(world.get(b, Side::Source), Some(&one(a)));
    assert_eq!(world.get(c, Side::Source), None);
    assert_eq!(
        world.drain_events(),
        vec![
            RelationEvent::Added(c, a),
            RelationEvent::Added(b, a),
            RelationEvent::Removed(a, c),
        ]
    );
}

#[test]
fn dedup_set_mirror_suppresses_duplicates() {
    let mut world = RelationWorld::new(
        Relation::new_directed(ContainerKind::UnboundedList, ContainerKind::DedupSet),
    );
    let a = world.spawn();
    let b = world.spawn();

    // a points at b twice; b's deduplicating mirror holds a once
    world.insert(
        a,
        Side::Source,
        Related::from_iter(ContainerKind::UnboundedList, &vec![b, b]),
    );
    world.flush();

    assert_eq!(world.get(a, Side::Source).map(|r| r.iter()), Some(vec![b, b]));
    assert_eq!(world.get(b, Side::Target).map(|r| r.iter()), Some(vec![a]));
    assert_eq!(world.drain_events(), vec![RelationEvent::Added(a, b)]);
}

#[test]
fn mirror_invariant_across_sides() {
    let mut world = RelationWorld::new(
        Relation::new_directed(ContainerKind::UnboundedList, ContainerKind::UnboundedList),
    );
    let a = world.spawn();
    let b = world.spawn();
    let c = world.spawn();

    world.insert(
        a,
        Side::Source,
        Related::from_iter(ContainerKind::UnboundedList, &vec![b]),
    );
    world.insert(
        c,
        Side::Target,
        Related::from_iter(ContainerKind::UnboundedList, &vec![a]),
    );
    world.flush();

    // after the flush every edge is represented from both endpoints
    assert!(world.points_at(a, Side::Source, b));
    assert!(world.points_at(b, Side::Target, a));
    assert!(world.points_at(c, Side::Target, a));
    assert!(world.points_at(a, Side::Source, c));

    // an entity with only one side present fails a both-sides selection
    assert!(world.select_both(a).is_none());

    world.insert(
        b,
        Side::Source,
        Related::from_iter(ContainerKind::UnboundedList, &vec![c]),
    );
    world.flush();
    assert!(world.points_at(c, Side::Target, b));
    assert!(world.select_both(b).is_some());
}
