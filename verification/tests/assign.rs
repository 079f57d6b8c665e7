#![allow(unused_mut)]

use market_aggregator::assign::{assigned_to, owner, weight, NodeId};
use market_aggregator::event::{Symbol, VenueId};
use market_aggregator::stream::StreamId;

fn nodes(names: &[&str]) -> Vec<NodeId> {
    names.iter().map(|n| NodeId::new(n)).collect()
}

/// Every venue crossed with `n` symbols — the shape a real cluster shards.
fn streams(n: usize) -> Vec<StreamId> {
    let venues = [VenueId::Coinbase, VenueId::Kraken, VenueId::Bitstamp];
    (0..n)
        .flat_map(|i| {
            let symbol = Symbol::new(&format!("SYM{i}-USD"));
            venues
                .iter()
                .map(move |v| StreamId::new(*v, symbol.clone()))
        })
        .collect()
}

#[test]
fn every_stream_has_exactly_one_owner() {
    let nodes = nodes(&["a", "b", "c"]);
    let streams = streams(40);

    let mut seen: Vec<StreamId> = Vec::new();
    for node in &nodes {
        for stream in assigned_to(node, &streams, &nodes) {
            assert!(!seen.contains(&stream), "{stream:?} owned twice");
            seen.push(stream);
        }
    }
    assert_eq!(seen.len(), streams.len(), "some stream was owned by nobody");
}

#[test]
fn the_assignment_does_not_depend_on_the_order_members_were_read_in() {
    let forward = nodes(&["alpha", "beta", "gamma"]);
    let backward = nodes(&["gamma", "beta", "alpha"]);
    let streams = streams(50);

    for node in &forward {
        assert_eq!(
            assigned_to(node, &streams, &forward),
            assigned_to(node, &streams, &backward),
        );
    }
}

#[test]
fn removing_a_node_moves_only_that_nodes_streams() {
    let before = nodes(&["a", "b", "c"]);
    let after = nodes(&["a", "b"]);
    let streams = streams(60);

    let lost = assigned_to(&NodeId::new("c"), &streams, &before);
    assert!(!lost.is_empty(), "c owned nothing; the test proves nothing");

    for name in ["a", "b"] {
        let node = NodeId::new(name);
        let kept = assigned_to(&node, &streams, &before);
        let now = assigned_to(&node, &streams, &after);
        assert!(
            kept.iter().all(|s| now.contains(s)),
            "{name} lost a stream when an unrelated node left"
        );
        assert!(now
            .iter()
            .filter(|s| !kept.contains(s))
            .all(|s| lost.contains(s)));
    }
}

#[test]
fn adding_a_node_takes_only_its_share_and_disturbs_nothing_else() {
    let before = nodes(&["a", "b"]);
    let after = nodes(&["a", "b", "c"]);
    let streams = streams(60);

    let gained = assigned_to(&NodeId::new("c"), &streams, &after);
    assert!(
        !gained.is_empty() && gained.len() < streams.len() / 2,
        "a joining node took {} of {} streams",
        gained.len(),
        streams.len()
    );

    for name in ["a", "b"] {
        let node = NodeId::new(name);
        let was = assigned_to(&node, &streams, &before);
        let now = assigned_to(&node, &streams, &after);
        assert!(
            now.iter().all(|s| was.contains(s)),
            "{name} gained a stream when a new node joined"
        );
        assert!(
            was.iter()
                .filter(|s| !now.contains(s))
                .all(|s| gained.contains(s)),
            "{name} lost a stream to somewhere other than the new node"
        );
    }
}

#[test]
fn the_split_is_roughly_even() {
    let nodes = nodes(&["node-1", "node-2", "node-3", "node-4"]);
    let streams = streams(100); // 300 streams
    let ideal = streams.len() / nodes.len();

    for node in &nodes {
        let n = assigned_to(node, &streams, &nodes).len();
        assert!(
            n > ideal / 2 && n < ideal * 2,
            "{node:?} got {n} streams against an ideal of {ideal}"
        );
    }
}

#[test]
fn an_empty_cluster_owns_nothing_rather_than_guessing() {
    let stream = StreamId::new(VenueId::Kraken, Symbol::new("BTC-USD"));
    assert_eq!(owner(&stream, &[]), None);
}

#[test]
fn one_node_owns_everything() {
    let nodes = nodes(&["only"]);
    let streams = streams(10);
    assert_eq!(
        assigned_to(&nodes[0], &streams, &nodes).len(),
        streams.len()
    );
}

#[test]
fn weights_are_pinned_so_a_rebuild_cannot_silently_reshuffle_a_cluster() {
    let stream = StreamId::new(VenueId::Coinbase, Symbol::new("BTC-USD"));
    assert_eq!(weight(&stream, &NodeId::new("a")), 658_005_282_954_361);
    assert_eq!(
        weight(&stream, &NodeId::new("b")),
        4_719_291_369_574_919_490
    );
}
