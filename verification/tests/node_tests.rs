use ringil::node::{subscription_topics, SwarmTarget};

#[test]
fn key_expressions_per_target() {
    assert_eq!(SwarmTarget::Global.to_key_expr(7), "ringil/swarm/global/7");
    assert_eq!(SwarmTarget::Cluster(12).to_key_expr(305), "ringil/swarm/cluster/12/305");
    assert_eq!(SwarmTarget::Node(0).to_key_expr(4294967295), "ringil/swarm/node/0/4294967295");
    assert_eq!(SwarmTarget::Node(1000).to_key_expr(10), "ringil/swarm/node/1000/10");
}

#[test]
fn subscriptions_with_and_without_cluster() {
    assert_eq!(
        subscription_topics(42, Some(9)),
        vec!["ringil/swarm/global/*".to_string(), "ringil/swarm/node/42/*".to_string(), "ringil/swarm/cluster/9/*".to_string()]
    );
    assert_eq!(
        subscription_topics(5, None),
        vec!["ringil/swarm/global/*".to_string(), "ringil/swarm/node/5/*".to_string()]
    );
}

#[test]
fn published_keys_fall_under_the_receivers_patterns() {
    let topics = subscription_topics(42, Some(9));
    let node_key = SwarmTarget::Node(42).to_key_expr(3);
    let cluster_key = SwarmTarget::Cluster(9).to_key_expr(3);
    let global_key = SwarmTarget::Global.to_key_expr(3);
    assert!(node_key.starts_with(topics[1].trim_end_matches('*')));
    assert!(cluster_key.starts_with(topics[2].trim_end_matches('*')));
    assert!(global_key.starts_with(topics[0].trim_end_matches('*')));
    let other = SwarmTarget::Node(421).to_key_expr(3);
    assert!(!other.starts_with(topics[1].trim_end_matches('*')));
}

#[test]
fn distinct_routes_and_senders_give_distinct_keys() {
    let keys = vec![
        SwarmTarget::Node(1).to_key_expr(23),
        SwarmTarget::Node(12).to_key_expr(3),
        SwarmTarget::Cluster(1).to_key_expr(23),
        SwarmTarget::Cluster(12).to_key_expr(3),
        SwarmTarget::Global.to_key_expr(123),
        SwarmTarget::Global.to_key_expr(12),
    ];
    for (i, a) in keys.iter().enumerate() {
        assert!(a.starts_with("ringil/swarm/"));
        for b in &keys[i + 1..] {
            assert_ne!(a, b);
        }
    }
    assert!(SwarmTarget::Cluster(7).to_key_expr(305).ends_with("/305"));
}
