//! Tests for the reactor: accept and token lifecycle, dispatch
//! classification, broadcast fan-out, deferred teardown, and capacity.

use relay::codec::encode_frame;
use relay::connection::Token;
use relay::server::Plan;
use relay::server::Readiness;
use relay::server::Server;

fn frame(payload: &[u8]) -> Vec<u8> {
    encode_frame(&payload.to_vec())
}

fn quiet() -> Readiness {
    Readiness { readable: false, writable: false, error: false, hangup: false }
}

/// Drain one connection's queue completely, returning the raw bytes it
/// would have written to its socket.
fn drain(s: &mut Server, t: Token) -> Vec<u8> {
    let mut out = Vec::new();
    while let Some(chunk) = s.next_chunk(t) {
        out.extend_from_slice(&chunk);
        let n = chunk.len();
        s.wrote(t, n);
    }
    out
}

#[test]
fn accept_hands_out_lowest_free_tokens() {
    let mut s = Server::new(8);
    assert_eq!(s.accept(), Some(Token(0)));
    assert_eq!(s.accept(), Some(Token(1)));
    assert_eq!(s.accept(), Some(Token(2)));
    assert!(s.contains(Token(0)) && s.contains(Token(1)) && s.contains(Token(2)));
    assert!(!s.contains(Token(3)));
    assert_eq!(s.connection(Token(2)).token(), Token(2));
    assert!(!s.connection(Token(2)).is_draining());
}

#[test]
fn listener_token_is_outside_the_table() {
    let s = Server::new(128);
    assert_eq!(s.listener_token(), Token(128));
    assert_eq!(s.capacity(), 128);
    assert!(!s.contains(Token(128)));
}

#[test]
fn token_reused_after_sweep() {
    let mut s = Server::new(4);
    s.accept();
    s.accept();
    s.accept();
    s.mark_draining(Token(1));
    let removed = s.sweep();
    assert_eq!(removed, vec![Token(1)]);
    assert!(!s.contains(Token(1)));
    // the freed slot is the lowest free one, so its token is reassigned
    assert_eq!(s.accept(), Some(Token(1)));
}

#[test]
fn fan_out_reaches_all_three_clients() {
    let mut s = Server::new(8);
    for _ in 0..3 {
        s.accept();
    }
    // client 2 (token 1) sends "hello"
    s.readable(Token(1), &frame(b"hello"));
    for t in [Token(0), Token(1), Token(2)] {
        // every client, the sender included, is sent header then payload
        let hdr = s.next_chunk(t).unwrap();
        assert_eq!(hdr, vec![0, 0, 0, 0, 0, 0, 0, 5]);
        s.wrote(t, 8);
        let body = s.next_chunk(t).unwrap();
        assert_eq!(body, b"hello".to_vec());
        s.wrote(t, 5);
        assert!(s.next_chunk(t).is_none());
    }
}

#[test]
fn zero_length_frame_is_never_broadcast() {
    let mut s = Server::new(4);
    s.accept();
    s.accept();
    s.readable(Token(0), &[0u8; 8]);
    assert!(s.next_chunk(Token(0)).is_none());
    assert!(s.next_chunk(Token(1)).is_none());
    assert!(!s.interest_of(Token(0)).unwrap().writable);
    assert!(!s.interest_of(Token(1)).unwrap().writable);
}

#[test]
fn sender_fifo_order_is_kept() {
    let mut s = Server::new(4);
    s.accept();
    s.accept();
    let mut data = frame(b"one");
    data.extend_from_slice(&frame(b"two"));
    s.readable(Token(0), &data);
    let mut expected = frame(b"one");
    expected.extend_from_slice(&frame(b"two"));
    assert_eq!(drain(&mut s, Token(1)), expected);
}

#[test]
fn reset_mid_send_removes_only_that_client() {
    let mut s = Server::new(8);
    for _ in 0..3 {
        s.accept();
    }
    let a = Token(0);
    let b = Token(1);
    let c = Token(2);
    // two frames get queued for everyone
    let mut data = frame(b"first");
    data.extend_from_slice(&frame(b"second"));
    s.readable(c, &data);
    // client A's send is interrupted partway through the first frame
    let chunk = s.next_chunk(a).unwrap();
    assert_eq!(chunk.len(), 8);
    s.wrote(a, 3);
    // ... then its socket is reset: A is marked and removed at the sweep
    s.mark_draining(a);
    let removed = s.sweep();
    assert_eq!(removed, vec![a]);
    assert!(!s.contains(a));
    // B and C keep receiving everything, uninterrupted
    let mut expected = frame(b"first");
    expected.extend_from_slice(&frame(b"second"));
    assert_eq!(drain(&mut s, b), expected);
    s.readable(b, &frame(b"later"));
    assert_eq!(drain(&mut s, c), {
        let mut e = expected.clone();
        e.extend_from_slice(&frame(b"later"));
        e
    });
}

#[test]
fn full_table_refuses_accept_and_keeps_serving() {
    let mut s = Server::new(2);
    assert_eq!(s.accept(), Some(Token(0)));
    assert_eq!(s.accept(), Some(Token(1)));
    // the table is full: the new connection attempt gets no slot
    assert_eq!(s.accept(), None);
    // existing connections keep exchanging frames normally
    s.readable(Token(0), &frame(b"still here"));
    assert_eq!(drain(&mut s, Token(1)), frame(b"still here"));
    assert_eq!(s.accept(), None);
}

#[test]
fn ready_classifies_in_priority_order() {
    let mut s = Server::new(4);
    s.accept();
    let t = Token(0);
    // error outranks everything: close only
    let p = s.ready(t, Readiness { readable: true, writable: true, error: true, hangup: false });
    assert_eq!(p, Plan { close: true, accept: false, read: false, write: false });
    // hang-up likewise
    let p = s.ready(t, Readiness { readable: true, writable: false, error: false, hangup: true });
    assert_eq!(p, Plan { close: true, accept: false, read: false, write: false });
    // plain readiness dispatches read and write
    let p = s.ready(t, Readiness { readable: true, writable: true, error: false, hangup: false });
    assert_eq!(p, Plan { close: false, accept: false, read: true, write: true });
    // a readable listener means accept
    let p = s.ready(s.listener_token(), Readiness { readable: true, ..quiet() });
    assert_eq!(p, Plan { close: false, accept: true, read: false, write: false });
    // unknown tokens are ignored
    let p = s.ready(Token(3), Readiness { readable: true, ..quiet() });
    assert_eq!(p, Plan { close: false, accept: false, read: false, write: false });
    assert_eq!(s.interest_of(Token(3)), None);
    // an error on the listener closes no connection slot
    let p = s.ready(s.listener_token(), Readiness { error: true, ..quiet() });
    assert_eq!(p, Plan { close: false, accept: false, read: false, write: false });
}

#[test]
fn draining_connection_is_inert() {
    let mut s = Server::new(4);
    s.accept();
    s.accept();
    s.readable(Token(1), &frame(b"before"));
    s.mark_draining(Token(0));
    // further readiness events for the draining connection are ignored
    let p = s.ready(Token(0), Readiness { readable: true, writable: true, error: false, hangup: false });
    assert_eq!(p, Plan { close: false, accept: false, read: false, write: false });
    // a read event fed anyway changes nothing for anyone
    s.readable(Token(0), &frame(b"ignored"));
    assert!(s.next_chunk(Token(1)).is_some());
    assert_eq!(drain(&mut s, Token(1)), frame(b"before"));
}

#[test]
fn isolation_of_error_on_one_connection() {
    let mut s = Server::new(4);
    s.accept();
    s.accept();
    s.readable(Token(0), &frame(b"payload"));
    // an error on connection 0 does not touch connection 1's state
    s.mark_draining(Token(0));
    s.sweep();
    assert!(s.contains(Token(1)));
    assert_eq!(drain(&mut s, Token(1)), frame(b"payload"));
}

#[test]
fn active_tokens_skip_draining_connections() {
    let mut s = Server::new(4);
    s.accept();
    s.accept();
    s.accept();
    s.mark_draining(Token(1));
    assert_eq!(s.active_tokens(), vec![Token(0), Token(2)]);
    let removed = s.sweep();
    assert_eq!(removed, vec![Token(1)]);
    assert_eq!(s.active_tokens(), vec![Token(0), Token(2)]);
}

#[test]
fn write_interest_follows_the_queue() {
    let mut s = Server::new(4);
    s.accept();
    s.accept();
    assert!(!s.interest_of(Token(1)).unwrap().writable);
    s.readable(Token(0), &frame(b"hi"));
    assert!(s.interest_of(Token(1)).unwrap().writable);
    assert!(s.interest_of(Token(1)).unwrap().readable);
    assert!(s.interest_of(Token(1)).unwrap().hangup);
    drain(&mut s, Token(1));
    assert!(!s.interest_of(Token(1)).unwrap().writable);
    assert!(s.interest_of(Token(0)).unwrap().writable);
}

#[test]
fn sweep_removes_every_draining_connection_in_order() {
    let mut s = Server::new(6);
    for _ in 0..5 {
        s.accept();
    }
    s.mark_draining(Token(4));
    s.mark_draining(Token(0));
    s.mark_draining(Token(2));
    let removed = s.sweep();
    assert_eq!(removed, vec![Token(0), Token(2), Token(4)]);
    assert!(s.contains(Token(1)) && s.contains(Token(3)));
    assert_eq!(s.sweep(), Vec::new());
}
