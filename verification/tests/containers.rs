use evergreen_relations::container::EntityContainer;
use evergreen_relations::relation::ContainerKind;

#[test]
fn singleton_container() {
    let mut c = EntityContainer::new(ContainerKind::Singleton, 7);
    assert!(!c.is_empty());
    assert!(c.contains(7));
    assert!(!c.contains(8));
    assert_eq!(c.iter(), vec![7]);

    // a singleton's push overwrites
    c.push(9);
    assert!(!c.contains(7));
    assert!(c.contains(9));
    assert_eq!(c.iter(), vec![9]);

    // removing an absent entity is a no-op
    c.remove(7);
    assert!(c.contains(9));

    c.remove(9);
    assert!(c.is_empty());
    assert!(!c.contains(9));
    assert_eq!(c.iter(), Vec::<usize>::new());
}

#[test]
fn bounded_list_container() {
    let mut c = EntityContainer::new(ContainerKind::BoundedList, 1);
    c.push(2);
    c.push(1);
    c.push(3);
    // duplicates allowed, insertion order kept
    assert_eq!(c.iter(), vec![1, 2, 1, 3]);
    assert!(c.contains(3));
    assert!(!c.contains(4));
    assert!(!c.is_empty());

    // removal deletes every occurrence
    c.remove(1);
    assert_eq!(c.iter(), vec![2, 3]);
    assert!(!c.contains(1));

    c.remove(2);
    c.remove(3);
    assert!(c.is_empty());
}

#[test]
fn bounded_list_spills_past_inline_capacity() {
    let mut c = EntityContainer::new(ContainerKind::BoundedList, 0);
    for e in 1..20usize {
        c.push(e);
    }
    let held = c.iter();
    assert_eq!(held.len(), 20);
    assert_eq!(held[0], 0);
    assert_eq!(held[19], 19);
    assert!(c.contains(13));
    c.remove(13);
    assert!(!c.contains(13));
    assert_eq!(c.iter().len(), 19);
}

#[test]
fn unbounded_list_container() {
    let mut c = EntityContainer::new(ContainerKind::UnboundedList, 5);
    c.push(5);
    c.push(6);
    assert_eq!(c.iter(), vec![5, 5, 6]);
    c.remove(5);
    assert_eq!(c.iter(), vec![6]);
    c.remove(6);
    assert!(c.is_empty());
}

#[test]
fn dedup_set_container() {
    let mut c = EntityContainer::new(ContainerKind::DedupSet, 4);
    // re-adding a present entity is a no-op
    c.push(4);
    c.push(5);
    c.push(4);
    assert_eq!(c.iter(), vec![4, 5]);
    assert!(c.contains(4));
    assert!(c.contains(5));
    c.remove(4);
    assert_eq!(c.iter(), vec![5]);
    c.remove(5);
    assert!(c.is_empty());
}

#[test]
fn remove_then_contains_is_false_for_every_kind() {
    for kind in [
        ContainerKind::Singleton,
        ContainerKind::BoundedList,
        ContainerKind::UnboundedList,
        ContainerKind::DedupSet,
    ] {
        let mut c = EntityContainer::new(kind, 11);
        c.push(12);
        c.remove(11);
        assert!(!c.contains(11));
        c.remove(12);
        assert!(!c.contains(12));
        assert!(c.is_empty());
    }
}
