use gridshare::registry::{Operation, Registry, ORIGIN};

#[test]
fn new_entry_holds_the_origin() {
    let mut r = Registry::new();
    r.create(7);
    assert_eq!(r.snapshot(), vec![ORIGIN]);
    assert!(r.contains(7));
}

#[test]
fn empty_registry_snapshot() {
    let r = Registry::new();
    assert_eq!(r.snapshot(), Vec::<(i32, i32)>::new());
    assert_eq!(r.len(), 0);
}

#[test]
fn set_position_replaces_the_position() {
    let mut r = Registry::new();
    r.create(1);
    assert!(r.set_position(1, (4, -5)));
    assert_eq!(r.snapshot(), vec![(4, -5)]);
}

#[test]
fn first_update_after_create_applies() {
    let mut r = Registry::new();
    r.create(1);
    r.create(2);
    r.set_position(1, (9, 9));
    assert!(r.set_position(2, (3, 3)));
    assert_eq!(r.snapshot(), vec![(9, 9), (3, 3)]);
}

#[test]
fn update_for_unknown_peer_is_dropped() {
    let mut r = Registry::new();
    r.create(1);
    assert!(!r.set_position(2, (5, 5)));
    assert_eq!(r.snapshot(), vec![ORIGIN]);
}

#[test]
fn removal_is_final() {
    let mut r = Registry::new();
    r.create(1);
    r.create(2);
    r.set_position(2, (8, 8));
    r.remove(1);
    assert!(!r.set_position(1, (5, 5)));
    assert!(!r.contains(1));
    assert_eq!(r.snapshot(), vec![(8, 8)]);
}

#[test]
fn removing_twice_changes_nothing_more() {
    let mut r = Registry::new();
    r.create(1);
    r.create(2);
    r.remove(1);
    let once = r.snapshot();
    r.remove(1);
    assert_eq!(r.snapshot(), once);
    r.remove(99);
    assert_eq!(r.snapshot(), once);
    assert_eq!(r.len(), 1);
}

#[test]
fn create_again_resets_to_origin() {
    let mut r = Registry::new();
    r.create(1);
    r.set_position(1, (3, 3));
    r.create(1);
    assert_eq!(r.snapshot(), vec![ORIGIN]);
    assert_eq!(r.len(), 1);
}

#[test]
fn snapshot_reflects_every_applied_operation() {
    let mut r = Registry::new();
    let ops = [
        Operation::Create(1),
        Operation::Create(2),
        Operation::SetPosition(1, (1, 1)),
        Operation::Create(3),
        Operation::SetPosition(2, (2, 2)),
        Operation::Remove(3),
        Operation::SetPosition(3, (7, 7)),
        Operation::SetPosition(1, (-1, 0)),
    ];
    for op in ops {
        assert_eq!(r.apply(op), None);
    }
    assert_eq!(r.apply(Operation::Snapshot), Some(vec![(-1, 0), (2, 2)]));
}
