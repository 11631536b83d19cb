use evergreen_relations::relation::{ContainerKind, Relatable, Relation, Side};
use evergreen_relations::world::RelationWorld;

#[test]
fn directed_descriptor() {
    let rel = Relation::new_directed(ContainerKind::Singleton, ContainerKind::BoundedList);
    assert!(!rel.symmetric);
    assert_eq!(rel.opposite(Side::Source), Side::Target);
    assert_eq!(rel.opposite(Side::Target), Side::Source);
    assert_eq!(rel.kind(Side::Source), ContainerKind::Singleton);
    assert_eq!(rel.kind(Side::Target), ContainerKind::BoundedList);

    let side = Relatable { relation: rel, side: Side::Source };
    let opp = side.opposite();
    assert_eq!(opp.side, Side::Target);
    assert_eq!(opp.kind(), ContainerKind::BoundedList);
    assert_eq!(opp.opposite().side, Side::Source);
}

#[test]
fn symmetric_descriptor() {
    let rel = Relation::new_symmetric(ContainerKind::DedupSet);
    assert!(rel.symmetric);
    assert_eq!(rel.opposite(Side::Source), Side::Source);
    assert_eq!(rel.kind(Side::Source), ContainerKind::DedupSet);
    assert_eq!(rel.kind(Side::Target), ContainerKind::DedupSet);
}

#[test]
fn spawned_entities_are_counted_in_order() {
    let mut world = RelationWorld::new(Relation::new_symmetric(ContainerKind::Singleton));
    assert_eq!(world.num_entities(), 0);
    let a = world.spawn();
    let b = world.spawn();
    assert_eq!(a, 0);
    assert_eq!(b, 1);
    assert_eq!(world.num_entities(), 2);
}
