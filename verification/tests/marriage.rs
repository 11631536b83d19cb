use evergreen_relations::relation::ContainerKind;
use evergreen_relations::event::RelationEvent;
use evergreen_relations::related::Related;
use evergreen_relations::relation::{Relation, Side};
use evergreen_relations::world::RelationWorld;

fn marriage_world() -> RelationWorld {
    RelationWorld::new(Relation::new_symmetric(ContainerKind::Singleton))
}

fn spouse(e: usize) -> Related {
    Related::new(ContainerKind::Singleton, e)
}

#[test]
fn marriage_add_remove() {
    let mut world = marriage_world();

    let a = world.spawn();
    let b = world.spawn();
    world.insert(b, Side::Source, spouse(a));

    world.flush();

    assert_eq!(world.get(a, Side::Source), Some(&spouse(b)));
    assert_eq!(world.get(b, Side::Source), Some(&spouse(a)));

    world.remove(b, Side::Source);
    world.flush();

    assert_eq!(world.get(a, Side::Source), None);
    assert_eq!(world.get(b, Side::Source), None);
}

#[test]
fn triangle_break_up() {
    let mut world = marriage_world();

    let a = world.spawn();
    let b = world.spawn();
    world.insert(b, Side::Source, spouse(a));
    let c = world.spawn();

    world.flush();

    assert_eq!(world.get(a, Side::Source), Some(&spouse(b)));
    assert_eq!(world.get(b, Side::Source), Some(&spouse(a)));
    assert_eq!(world.get(c, Side::Source), None);

    world.insert(a, Side::Source, spouse(c));
    world.flush();

    assert_eq!(world.get(a, Side::Source), Some(&spouse(c)));
    assert_eq!(world.get(b, Side::Source), None);
    assert_eq!(world.get(c, Side::Source), Some(&spouse(a)));
}

#[test]
fn add_repeated() {
    let mut world = marriage_world();

    let a = world.spawn();
    let b = world.spawn();

    world.insert(a, Side::Source, spouse(b));
    world.insert(a, Side::Source, spouse(b));
    world.insert(a, Side::Source, spouse(b));
    world.flush();

    assert_eq!(world.get(a, Side::Source), Some(&spouse(b)));
    assert_eq!(world.get(b, Side::Source), Some(&spouse(a)));
}

#[test]
fn swap() {
    let mut world = marriage_world();

    let a = world.spawn();
    let b = world.spawn();
    let c = world.spawn();
    let d = world.spawn();

    world.insert(a, Side::Source, spouse(b));
    world.insert(c, Side::Source, spouse(d));
    world.flush();

    assert_eq!(world.get(a, Side::Source), Some(&spouse(b)));
    assert_eq!(world.get(b, Side::Source), Some(&spouse(a)));
    assert_eq!(world.get(c, Side::Source), Some(&spouse(d)));
    assert_eq!(world.get(d, Side::Source), Some(&spouse(c)));

    world.insert(a, Side::Source, spouse(c));
    world.insert(b, Side::Source, spouse(d));
    world.flush();

    assert_eq!(world.get(a, Side::Source), Some(&spouse(c)));
    assert_eq!(world.get(b, Side::Source), Some(&spouse(d)));
    assert_eq!(world.get(c, Side::Source), Some(&spouse(a)));
    assert_eq!(world.get(d, Side::Source), Some(&spouse(b)));
}

#[test]
fn looped_add_remove() {
    let mut world = marriage_world();

    let a = world.spawn();
    let b = world.spawn();

    for _ in 0..10_000 {
        world.insert(a, Side::Source, spouse(b));
        world.remove(a, Side::Source);
    }

    world.flush();

    assert_eq!(world.get(a, Side::Source), None);
    assert_eq!(world.get(b, Side::Source), None);
}

#[test]
fn events() {
    let mut world = marriage_world();

    let a = world.spawn();
    let b = world.spawn();
    world.insert(b, Side::Source, spouse(a));
    world.flush();

    assert_eq!(world.get(a, Side::Source), Some(&spouse(b)));
    assert_eq!(world.get(b, Side::Source), Some(&spouse(a)));

    assert_eq!(world.drain_events(), vec![RelationEvent::Added(b, a)]);

    world.remove(a, Side::Source);
    world.flush();

    assert_eq!(world.get(a, Side::Source), None);
    assert_eq!(world.get(b, Side::Source), None);

    assert_eq!(world.drain_events(), vec![RelationEvent::Removed(a, b)]);
}
