#![allow(unused_mut)]

use market_aggregator::assign::NodeId;
use market_aggregator::lease::{Lease, RegistryError};
use market_aggregator::registry::{
    is_record_file, is_record_name, record_name, registry_from_uri, DirRegistry, LeaseTable,
    MemoryRegistry,
};
use market_aggregator::time::{Duration, SystemTime};

fn lease(node: &str, written_at_unix_ms: u64) -> Lease {
    Lease {
        node: NodeId::new(node),
        written_at_unix_ms,
        ttl_ms: 15_000,
    }
}

fn unix_ms(ms: u64) -> SystemTime {
    SystemTime::epoch()
        .checked_add(Duration::from_millis(ms))
        .unwrap()
}

#[test]
fn every_nodes_record_reads_back() {
    let registry = MemoryRegistry::new();
    let mut table = LeaseTable::new();
    registry.announce(&mut table, &lease("node-a", 1000)).unwrap();
    registry.announce(&mut table, &lease("node-b", 2000)).unwrap();
    assert_eq!(
        registry.members(&table).unwrap(),
        vec![lease("node-a", 1000), lease("node-b", 2000)]
    );
}

#[test]
fn announcing_again_replaces_only_that_nodes_record() {
    let registry = MemoryRegistry::new();
    let mut table = LeaseTable::new();
    registry.announce(&mut table, &lease("node-a", 1000)).unwrap();
    registry.announce(&mut table, &lease("node-b", 1000)).unwrap();
    registry.announce(&mut table, &lease("node-a", 9999)).unwrap();

    let members = registry.members(&table).unwrap();
    assert_eq!(members.len(), 2);
    let a = members.iter().find(|l| l.node.as_str() == "node-a").unwrap();
    let b = members.iter().find(|l| l.node.as_str() == "node-b").unwrap();
    assert_eq!(a.written_at_unix_ms, 9999);
    assert_eq!(b.written_at_unix_ms, 1000, "a renewal touched another node");
}

#[test]
fn an_empty_cluster_is_not_an_error() {
    let table = LeaseTable::new();
    assert!(MemoryRegistry::new().members(&table).unwrap().is_empty());
}

#[test]
fn withdrawing_is_idempotent() {
    let registry = MemoryRegistry::new();
    let mut table = LeaseTable::new();
    registry.announce(&mut table, &lease("node-a", 1000)).unwrap();

    registry.withdraw(&mut table, &NodeId::new("node-a")).unwrap();
    registry.withdraw(&mut table, &NodeId::new("node-a")).unwrap();
    assert!(registry.members(&table).unwrap().is_empty());
}

#[test]
fn a_node_id_cannot_escape_the_registry_directory() {
    let registry = DirRegistry::new("/srv/cluster");
    assert_eq!(
        registry.path_for(&NodeId::new("../../escaped")),
        "/srv/cluster/______escaped.json"
    );
    assert!(is_record_name(&record_name(&NodeId::new("../../escaped"))));
    assert!(!is_record_name("notes.txt"));
}

#[test]
fn a_record_from_the_future_is_treated_as_live() {
    let now = unix_ms(1_000_000);
    let future = lease("node-a", 2_000_000);
    assert!(!future.expired_at(now));
}

#[test]
fn a_record_older_than_its_own_ttl_is_expired() {
    let written = 1_000_000;
    let l = lease("node-a", written);
    let just_inside = unix_ms(written + 15_000);
    let just_outside = unix_ms(written + 15_001);
    assert!(!l.expired_at(just_inside));
    assert!(l.expired_at(just_outside));
}

#[test]
fn an_offline_handle_fails_without_disturbing_the_others() {
    let mut shared = MemoryRegistry::new();
    let other = shared.handle();
    let mut table = LeaseTable::new();

    shared.announce(&mut table, &lease("node-a", 1000)).unwrap();
    shared.set_offline(true);

    assert!(shared.members(&table).is_err());
    assert_eq!(
        other.members(&table).unwrap().len(),
        1,
        "one node's partition took the registry down for everyone"
    );
}

#[test]
fn an_s3_registry_uri_is_refused_with_the_reason() {
    let e = registry_from_uri("s3://bucket/cluster").unwrap_err();
    assert!(e.contains("scoped to one bucket prefix"), "{e}");
}

#[test]
fn a_directory_uri_is_a_directory_registry() {
    let registry = registry_from_uri("/srv/cluster").unwrap();
    assert_eq!(registry.describe(), "directory /srv/cluster");
    assert_eq!(MemoryRegistry::new().describe(), "in-process registry");
}

#[test]
fn a_malformed_record_names_its_node() {
    let e = RegistryError::Malformed {
        node: "node-a.json".to_owned(),
        source: "expected value".to_owned(),
    };
    assert_eq!(
        e.message(),
        "malformed lease record for node-a.json: expected value"
    );
}

#[test]
fn a_file_named_by_its_extension_alone_is_no_record() {
    assert!(is_record_file("node-a.json"));
    assert!(!is_record_file(".json"));
    assert!(!is_record_file("node-a.tmp"));
    assert!(is_record_name("cluster/.json"));
}
