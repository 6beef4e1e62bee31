use vsp::pool::{ConnectionPool, TCPTransport, WebSocketTransport};
use vsp::VSPError;

fn s(v: &str) -> String {
    v.to_string()
}

#[test]
fn transport_connect_send_close() {
    let mut t = TCPTransport::new(s("127.0.0.1"), 9001);
    assert_eq!(t.get_host(), "127.0.0.1");
    assert_eq!(t.get_port(), 9001);
    assert!(t.is_closed());
    assert_eq!(t.send(&vec![1, 2, 3]).unwrap_err(), VSPError::RemoteUnavailable);
    t.connect();
    assert!(t.is_connected());
    assert_eq!(t.send(&vec![1, 2, 3]).unwrap(), 3);
    t.close();
    assert!(t.is_closed());
    assert_eq!(t.get_type(), "tcp");
}

#[test]
fn websocket_transport_mirrors_tcp() {
    let mut t = WebSocketTransport::new(s("ws://x/y"));
    assert_eq!(t.get_url(), "ws://x/y");
    assert!(t.is_closed());
    t.connect();
    assert_eq!(t.send(&vec![9]).unwrap(), 1);
    t.close();
    assert_eq!(t.send(&vec![9]).unwrap_err(), VSPError::RemoteUnavailable);
    assert_eq!(t.get_type(), "websocket");
}

#[test]
fn pool_never_exceeds_max_connections() {
    let mut pool = ConnectionPool::new(Some(3));
    let key = s("127.0.0.1:9001");
    let host = s("127.0.0.1");
    for expected_idx in [0usize, 1, 2] {
        let idx = pool
            .get_transport_internal(&key, &host, 9001)
            .expect("below the bound a transport is created");
        assert_eq!(idx, expected_idx);
    }
    assert!(
        pool.get_transport_internal(&key, &host, 9001).is_none(),
        "a fourth distinct transport never appears"
    );
    let (endpoints, conns) = pool.get_stats();
    assert_eq!(endpoints, 1);
    assert_eq!(conns, 3);
}

#[test]
fn pool_reuses_first_open_transport() {
    let mut pool = ConnectionPool::new(Some(2));
    let key = s("h:1");
    let host = s("h");
    let idx = pool.get_transport_internal(&key, &host, 1).unwrap();
    assert_eq!(pool.send_through(&key, idx, &vec![1, 2]).unwrap(), 2);
    let again = pool.get_transport_internal(&key, &host, 1).unwrap();
    assert_eq!(again, idx, "the connected transport is reused, not duplicated");
    let (_, conns) = pool.get_stats();
    assert_eq!(conns, 1);
}

#[test]
fn cleanup_removes_closed_transports_and_counts_them() {
    let mut pool = ConnectionPool::new(Some(4));
    let key = s("h:1");
    let host = s("h");
    let a = pool.get_transport_internal(&key, &host, 1).unwrap();
    let _b = pool.get_transport_internal(&key, &host, 1).unwrap();
    let _c = pool.get_transport_internal(&key, &host, 1).unwrap();
    pool.send_through(&key, a, &vec![0]).unwrap();
    let removed = pool.cleanup();
    assert_eq!(removed, 2, "both never-connected transports are swept");
    let (endpoints, conns) = pool.get_stats();
    assert_eq!(endpoints, 1);
    assert_eq!(conns, 1);
}

#[test]
fn cleanup_to_zero_after_all_closed() {
    let mut pool = ConnectionPool::new(Some(2));
    let key = s("a:2");
    let host = s("a");
    pool.get_transport_internal(&key, &host, 2).unwrap();
    pool.get_transport_internal(&key, &host, 2).unwrap();
    let removed = pool.cleanup();
    assert_eq!(removed, 2);
    let (endpoints, conns) = pool.get_stats();
    assert_eq!(endpoints, 1, "the endpoint entry stays, emptied");
    assert_eq!(conns, 0);
    assert_eq!(pool.cleanup(), 0);
}

#[test]
fn pool_is_unchanged_by_backpressure() {
    let mut pool = ConnectionPool::new(Some(1));
    let key = s("h:1");
    let host = s("h");
    pool.get_transport_internal(&key, &host, 1).unwrap();
    let before = pool.get_stats();
    assert!(pool.get_transport_internal(&key, &host, 1).is_none());
    assert_eq!(pool.get_stats(), before, "backpressure leaves the pool as it was");
}

#[test]
fn pool_keys_endpoints_independently() {
    let mut pool = ConnectionPool::new(Some(1));
    pool.get_transport_internal(&s("a:1"), &s("a"), 1).unwrap();
    pool.get_transport_internal(&s("b:2"), &s("b"), 2).unwrap();
    assert!(pool.get_transport_internal(&s("a:1"), &s("a"), 1).is_none());
    let (endpoints, conns) = pool.get_stats();
    assert_eq!(endpoints, 2);
    assert_eq!(conns, 2);
}

#[test]
fn send_through_unknown_slot_is_not_found() {
    let mut pool = ConnectionPool::new(Some(2));
    assert_eq!(
        pool.send_through(&s("missing:1"), 0, &vec![1]).unwrap_err(),
        VSPError::NotFound
    );
}
