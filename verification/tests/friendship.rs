use evergreen_relations::related::Related;
use evergreen_relations::relation::{ContainerKind, Relation, Side};
use evergreen_relations::world::RelationWorld;

fn friendship_world() -> RelationWorld {
    RelationWorld::new(Relation::new_symmetric(ContainerKind::BoundedList))
}

fn friends(es: Vec<usize>) -> Related {
    Related::from_iter(ContainerKind::BoundedList, &es)
}

#[test]
fn friendship_add_remove() {
    let mut world = friendship_world();

    let a = world.spawn();
    let b = world.spawn();
    world.insert(b, Side::Source, friends(vec![a]));
    let c = world.spawn();
    world.insert(c, Side::Source, friends(vec![a, b]));

    world.flush();

    assert_eq!(world.get(a, Side::Source), Some(&friends(vec![b, c])));
    assert_eq!(world.get(b, Side::Source), Some(&friends(vec![a, c])));
    assert_eq!(world.get(c, Side::Source), Some(&friends(vec![a, b])));

    world.remove(b, Side::Source);

    world.flush();

    assert_eq!(world.get(a, Side::Source), Some(&friends(vec![c])));
    assert_eq!(world.get(b, Side::Source), None);
    assert_eq!(world.get(c, Side::Source), Some(&friends(vec![a])));
}
