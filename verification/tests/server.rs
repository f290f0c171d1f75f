use fanout::connection::Connection;
use fanout::server::Server;
use fanout::server::WriteOutcome;

fn fill(server: &mut Server, bytes: &[u8]) {
    server.write_free(0, bytes);
    server.commit_read(bytes.len());
}

#[test]
fn new_connections_start_at_end_and_keep_stable_ids() {
    let mut server = Server::new(8);
    let local = server.register_local();
    fill(&mut server, &[1, 2, 3]);
    let remote = server.accept_connection();

    // The local sink is registered first and always gets id 0.
    assert_eq!(local, 0);
    let ids = server.connection_ids();
    assert_eq!(ids, vec![local, remote]);

    // The local connection was attached before the bytes arrived and sees
    // them all; the remote one attached afterwards and sees nothing.
    let (a, b) = server.connection_slices(local);
    assert_eq!(a, &[1, 2, 3]);
    assert_eq!(b.len(), 0);
    let (a, b) = server.connection_slices(remote);
    assert_eq!(a.len() + b.len(), 0);

    match server.connection(local) {
        Some(Connection::Stdio(c)) => assert_eq!(c.cursor.inner, 0),
        _ => panic!("expected a local connection"),
    }
    match server.connection(remote) {
        Some(Connection::Unix(c)) => assert_eq!(c.cursor.inner, 3),
        _ => panic!("expected a remote connection"),
    }
}

#[test]
fn broken_pipe_removes_one_connection_and_tail_follows_survivors() {
    let mut server = Server::new(8);
    let first = server.register_local();
    let second = server.accept_connection();
    let third = server.accept_connection();
    fill(&mut server, &[10, 11, 12, 13, 14]);

    server.begin_write_round();
    server.apply_write_outcome(first, WriteOutcome::Wrote(5));
    server.apply_write_outcome(second, WriteOutcome::BrokenPipe);
    let min = server.apply_write_outcome(third, WriteOutcome::Wrote(3));
    assert!(server.finish_write_round());

    // Only the two survivors are left and only their cursors moved.
    assert_eq!(server.connection_ids(), vec![first, third]);
    assert!(server.connection(second).is_none());
    assert_eq!(server.connection(first).unwrap().cursor().inner, 5);
    assert_eq!(server.connection(third).unwrap().cursor().inner, 3);

    // The tail advanced by the least progress of the survivors, not by the
    // removed connection's zero.
    assert_eq!(min, 3);
    assert_eq!(server.buffer().len(), 2);
    assert_eq!(server.buffer().start().inner, 3);
}

#[test]
fn stalled_connection_fills_buffer_until_it_catches_up() {
    let mut server = Server::new(4);
    let fast = server.register_local();
    let slow = server.accept_connection();
    fill(&mut server, &[1, 2, 3, 4]);
    assert!(server.buffer().is_full());

    // The stalled connection pins the round minimum at zero: nothing is
    // reclaimed and the producer has nowhere to read into.
    server.begin_write_round();
    server.apply_write_outcome(fast, WriteOutcome::Wrote(4));
    let min = server.apply_write_outcome(slow, WriteOutcome::WouldBlock);
    assert_eq!(min, 0);
    assert!(!server.finish_write_round());
    assert!(server.buffer().is_full());
    let (a, b) = server.unused_regions();
    assert_eq!(a.len, 0);
    assert_eq!(b.len, 0);

    // Once the slow sink drains, the tail advances and space opens up again.
    server.begin_write_round();
    let min = server.apply_write_outcome(slow, WriteOutcome::Wrote(4));
    assert_eq!(min, 4);
    assert!(server.finish_write_round());
    assert!(server.buffer().is_empty());
    let (a, b) = server.unused_regions();
    assert_eq!(a.len + b.len, 4);
}

#[test]
fn caught_up_connections_do_not_hold_the_tail() {
    let mut server = Server::new(8);
    let only = server.register_local();
    fill(&mut server, &[7, 8, 9]);

    server.begin_write_round();
    server.apply_write_outcome(only, WriteOutcome::Wrote(3));
    assert!(server.finish_write_round());
    assert!(server.buffer().is_empty());

    // The connection's cursor now equals `end`; it reads nothing more until
    // new bytes arrive.
    let (a, b) = server.connection_slices(only);
    assert_eq!(a.len() + b.len(), 0);
    fill(&mut server, &[42]);
    let (a, b) = server.connection_slices(only);
    assert_eq!(a, &[42]);
    assert_eq!(b.len(), 0);
}

#[test]
fn removed_id_is_reused_for_a_later_connection() {
    let mut server = Server::new(8);
    let first = server.register_local();
    let second = server.accept_connection();
    server.begin_write_round();
    let min = server.apply_write_outcome(second, WriteOutcome::BrokenPipe);
    assert_eq!(min, 0);
    assert!(!server.finish_write_round());

    let third = server.accept_connection();
    assert_eq!(third, second);
    assert_eq!(server.connection_ids(), vec![first, third]);
}
