use nimble::proxy::{
    internal_error_response, rate_limit_response, too_many_requests_response,
    LimiterEvent, LoadBalancer, Node,
};

#[test]
fn the_ring_serves_every_key_with_a_known_address() {
    let addresses = vec![
        "10.0.0.1:8000".to_string(),
        "10.0.0.2:8000".to_string(),
        "10.0.0.3:8000".to_string(),
    ];
    let lb = LoadBalancer::new(addresses.clone());
    assert_eq!(lb.lamport_timestamp, 0);
    assert_eq!(lb.nodes.len(), 3);
    for (i, n) in lb.nodes.iter().enumerate() {
        assert_eq!(n.address, addresses[i]);
    }
    assert!(lb.ring.len() >= 1 && lb.ring.len() <= 3);

    for key in [0u64, 17, u64::MAX / 2, u64::MAX] {
        let a = lb.get_node(key).unwrap();
        assert!(addresses.contains(a));
    }
}

#[test]
fn the_same_client_lands_on_the_same_replica() {
    let addresses = vec!["a:1".to_string(), "b:1".to_string(), "c:1".to_string()];
    let lb = LoadBalancer::new(addresses);
    let key = LoadBalancer::add_node(&"192.168.0.9".to_string());
    let first = lb.get_node(key).unwrap().clone();
    let second = lb.get_node(key).unwrap().clone();
    assert_eq!(first, second);
}

#[test]
fn an_empty_ring_serves_nobody() {
    let lb = LoadBalancer::new(Vec::new());
    assert!(lb.get_node(42).is_none());
}

#[test]
fn the_clock_ticks() {
    let addresses = vec!["a:1".to_string()];
    let mut lb = LoadBalancer::new(addresses);
    assert_eq!(lb.increment_time(), 0);
    assert_eq!(lb.increment_time(), 1);
    assert_eq!(lb.lamport_timestamp, 2);
}

#[test]
fn limiter_events_map_to_the_fixed_responses() {
    let internal = String::from_utf8(internal_error_response()).unwrap();
    assert_eq!(
        internal,
        "HTTP/1.1 500 Internal Server Error\r\nContent-Length: 0\r\n\r\n".to_string()
    );
    let denied = String::from_utf8(too_many_requests_response()).unwrap();
    assert_eq!(
        denied,
        "HTTP/1.1 429 Too Many Requests\r\nContent-Length: 0\r\n\r\n".to_string()
    );

    assert_eq!(
        rate_limit_response(LimiterEvent::Unreachable),
        Some(internal_error_response())
    );
    assert_eq!(
        rate_limit_response(LimiterEvent::CallFailed),
        Some(internal_error_response())
    );
    assert_eq!(
        rate_limit_response(LimiterEvent::Denied),
        Some(too_many_requests_response())
    );
    assert_eq!(rate_limit_response(LimiterEvent::Allowed), None);
}

#[test]
fn nodes_carry_their_address() {
    let n = Node::new("replica-1:9000".to_string());
    assert_eq!(n.address, "replica-1:9000".to_string());
}
