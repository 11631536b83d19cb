use evergreen_relations::related::Related;
use evergreen_relations::relation::{ContainerKind, Relation, Side};
use evergreen_relations::world::RelationWorld;

fn family_world() -> RelationWorld {
    RelationWorld::new(
        Relation::new_directed(ContainerKind::Singleton, ContainerKind::BoundedList),
    )
}

fn parent(e: usize) -> Related {
    Related::new(ContainerKind::Singleton, e)
}

fn children(es: Vec<usize>) -> Related {
    Related::from_iter(ContainerKind::BoundedList, &es)
}

#[test]
fn family_add_remove() {
    let mut world = family_world();

    let a = world.spawn();
    let b = world.spawn();
    world.insert(b, Side::Source, parent(a));
    let c = world.spawn();
    world.insert(c, Side::Source, parent(a));

    world.flush();

    assert_eq!(world.get(a, Side::Source), None);
    assert_eq!(world.get(b, Side::Source), Some(&parent(a)));
    assert_eq!(world.get(c, Side::Source), Some(&parent(a)));

    assert_eq!(
        world.get(a, Side::Target).map(|ch| ch.iter()),
        Some(vec![b, c])
    );
    assert_eq!(world.get(b, Side::Target), None);
    assert_eq!(world.get(c, Side::Target), None);

    world.remove(b, Side::Source);

    world.flush();

    assert_eq!(
        world.get(a, Side::Target).map(|ch| ch.iter()),
        Some(vec![c])
    );

    world.remove(a, Side::Target);

    world.flush();

    assert_eq!(world.get(a, Side::Target), None);
    assert_eq!(world.get(b, Side::Source), None);
    assert_eq!(world.get(c, Side::Source), None);
}

#[test]
fn both_related() {
    let mut world = family_world();

    let a = world.spawn();
    let b = world.spawn();
    world.insert(b, Side::Source, parent(a));
    let c = world.spawn();
    world.insert(c, Side::Source, parent(b));

    world.flush();

    let a_related = world.select_related(a);
    assert_eq!(a_related.source, None);
    assert_eq!(a_related.target, Some(&children(vec![b])));

    let b_related = world.select_related(b);
    assert_eq!(b_related.source, Some(&parent(a)));
    assert_eq!(b_related.target, Some(&children(vec![c])));

    let c_related = world.select_related(c);
    assert_eq!(c_related.source, Some(&parent(b)));
    assert_eq!(c_related.target, None);
}
