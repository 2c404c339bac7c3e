use gridshare::acceptor::{Acceptor, MAX_DRAWS};
use gridshare::codec::{decode_points, encode_message, encode_record};
use gridshare::connection::{Connection, ReadOutcome};
use gridshare::registry::{Operation, Registry, ORIGIN};

fn run(registry: &mut Registry, ops: Vec<Operation>) {
    for op in ops {
        registry.apply(op);
    }
}

fn broadcast(registry: &mut Registry) -> Vec<(i32, i32)> {
    let snapshot = registry.apply(Operation::Snapshot).unwrap();
    let mut message = encode_message(&snapshot);
    assert_eq!(message.pop(), Some(b';'));
    decode_points(&message).unwrap()
}

#[test]
fn minted_identities_are_distinct() {
    let mut acceptor = Acceptor::new();
    let mut registry = Registry::new();
    let mut ids = Vec::new();
    for _ in 0..200 {
        let id = acceptor.accept(&mut registry).unwrap();
        assert!(!ids.contains(&id));
        assert!(registry.contains(id));
        ids.push(id);
    }
    assert_eq!(registry.len(), 200);
    assert!(MAX_DRAWS > 0);
}

#[test]
fn an_identity_is_never_handed_out_twice() {
    let mut acceptor = Acceptor::new();
    let mut registry = Registry::new();
    assert_eq!(acceptor.register(&mut registry, 5), Some(5));
    registry.remove(5);
    assert_eq!(acceptor.register(&mut registry, 5), None);
    assert!(!registry.contains(5));
    assert_eq!(acceptor.register(&mut registry, 6), Some(6));
}

#[test]
fn registered_peer_starts_at_origin() {
    let mut acceptor = Acceptor::new();
    let mut registry = Registry::new();
    let id = acceptor.accept(&mut registry).unwrap();
    assert_eq!(registry.snapshot(), vec![ORIGIN]);
    let mut conn = Connection::new(id);
    let ops = conn.on_read(ReadOutcome::Data(b"1:1\n".to_vec()));
    assert_eq!(ops, vec![Operation::SetPosition(id, (1, 1))]);
    assert!(registry.set_position(id, (1, 1)));
}

#[test]
fn partial_record_waits_for_its_newline() {
    let mut conn = Connection::new(3);
    assert_eq!(conn.on_read(ReadOutcome::Data(b"1".to_vec())), vec![]);
    assert_eq!(conn.pending(), b"1".to_vec());
    assert_eq!(conn.on_read(ReadOutcome::Data(b":2\n-4".to_vec())), vec![
        Operation::SetPosition(3, (1, 2))
    ]);
    assert_eq!(conn.pending(), b"-4".to_vec());
    assert_eq!(conn.on_read(ReadOutcome::Data(b":5\n".to_vec())), vec![
        Operation::SetPosition(3, (-4, 5))
    ]);
    assert_eq!(conn.pending(), Vec::<u8>::new());
}

#[test]
fn malformed_records_are_ignored() {
    let mut conn = Connection::new(3);
    let ops = conn.on_read(ReadOutcome::Data(b"x\n\n4:4\n5\n6:6\n".to_vec()));
    assert_eq!(ops, vec![
        Operation::SetPosition(3, (4, 4)),
        Operation::SetPosition(3, (6, 6))
    ]);
    assert!(conn.is_active());
}

#[test]
fn would_block_is_not_an_error() {
    let mut conn = Connection::new(3);
    conn.on_read(ReadOutcome::Data(b"7".to_vec()));
    assert_eq!(conn.on_read(ReadOutcome::WouldBlock), vec![]);
    assert!(conn.is_active());
    assert_eq!(conn.pending(), b"7".to_vec());
}

#[test]
fn failed_read_removes_the_peer() {
    let mut conn = Connection::new(3);
    assert_eq!(conn.on_read(ReadOutcome::Failed), vec![Operation::Remove(3)]);
    assert!(!conn.is_active());
    assert_eq!(conn.on_read(ReadOutcome::Data(b"1:1\n".to_vec())), vec![]);
}

#[test]
fn failed_write_removes_the_peer() {
    let mut conn = Connection::new(4);
    assert_eq!(conn.id(), 4);
    assert_eq!(conn.on_write_failed(), Some(Operation::Remove(4)));
    assert!(!conn.is_active());
    assert_eq!(conn.on_write_failed(), None);
}

#[test]
fn scenario_single_peer_connects_moves_and_leaves() {
    let mut acceptor = Acceptor::new();
    let mut registry = Registry::new();
    let first = acceptor.accept(&mut registry).unwrap();
    let mut conn = Connection::new(first);
    let ops = conn.on_read(ReadOutcome::Data(b"2:3\n".to_vec()));
    run(&mut registry, ops);
    assert!(registry.snapshot().contains(&(2, 3)));
    let ops = conn.on_read(ReadOutcome::Failed);
    run(&mut registry, ops);
    assert_eq!(registry.snapshot(), vec![]);
    assert!(!registry.contains(first));
}

#[test]
fn scenario_two_peers_see_both_positions() {
    let mut acceptor = Acceptor::new();
    let mut registry = Registry::new();
    let first = acceptor.accept(&mut registry).unwrap();
    let second = acceptor.accept(&mut registry).unwrap();
    assert_ne!(first, second);
    let mut c1 = Connection::new(first);
    let mut c2 = Connection::new(second);
    let ops = c1.on_read(ReadOutcome::Data(encode_record((1, 1))));
    run(&mut registry, ops);
    let ops = c2.on_read(ReadOutcome::Data(encode_record((5, 6))));
    run(&mut registry, ops);
    for seen in [broadcast(&mut registry), broadcast(&mut registry)] {
        assert_eq!(seen.len(), 2);
        assert!(seen.contains(&(1, 1)));
        assert!(seen.contains(&(5, 6)));
    }
    let ops = c1.on_read(ReadOutcome::Data(encode_record((2, 1))));
    run(&mut registry, ops);
    let seen = broadcast(&mut registry);
    assert!(seen.contains(&(2, 1)));
    assert!(seen.contains(&(5, 6)));
}
