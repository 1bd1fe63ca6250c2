//! Clusters and replication.

use undr9::cluster::{ClusterManager, NodeRole};
use undr9::common::NodeId;
use undr9::ordered::Replicate;
use undr9::records::{NodeRecord, WriteBatch};
use undr9::replication::{
    ensure_follower, ensure_leader, validate_replication_records, ReplicationManager,
    ReplicationMode, ReplicationRecord, ReplicationStatus,
};

fn shipped(term: u64, lsn: u64) -> ReplicationRecord {
    ReplicationRecord {
        source_node_id: "leader-1".to_owned(),
        source_term: term,
        source_lsn: lsn,
        batch: WriteBatch::default(),
    }
}

#[test]
fn single_node_topology_is_primary_only() {
    let topology = ClusterManager::single_node("127.0.0.1:7000");
    assert_eq!(topology.topology().nodes.len(), 1);
    assert_eq!(topology.topology().nodes[0].role, NodeRole::Primary);
}

#[test]
fn promote_node_updates_leader_and_term() {
    let mut cluster = ClusterManager::single_node("127.0.0.1:7000");
    cluster.add_replica("node-2", "127.0.0.1:7001").expect("replica should add");
    let plan = cluster.promote_node("node-2").expect("promotion should work");

    assert_eq!(plan.new_leader_node_id, "node-2");
    assert_eq!(cluster.topology().leader_node_id.as_deref(), Some("node-2"));
    assert_eq!(cluster.topology().term, 2);
}

#[test]
fn ensure_leader_is_idempotent_for_same_node() {
    let mut cluster = ClusterManager::single_node("127.0.0.1:7000");

    let plan = cluster.ensure_leader("node-1").expect("leader should remain stable");

    assert_eq!(plan.new_leader_node_id, "node-1");
    assert_eq!(cluster.topology().leader_node_id.as_deref(), Some("node-1"));
    assert_eq!(cluster.topology().term, 1);
}

#[test]
fn observe_leader_updates_topology_without_bumping_term() {
    let mut cluster = ClusterManager::single_node("127.0.0.1:7000");
    cluster.add_replica("node-2", "127.0.0.1:7001").expect("replica should add");

    cluster.observe_leader("node-2").expect("leader observation should work");

    assert_eq!(cluster.topology().leader_node_id.as_deref(), Some("node-2"));
    assert_eq!(cluster.topology().term, 1);
}

#[test]
fn a_cluster_has_one_primary() {
    let mut cluster = ClusterManager::single_node("127.0.0.1:7000");
    cluster.add_replica("node-2", "127.0.0.1:7001").expect("replica should add");
    cluster.add_replica("node-3", "127.0.0.1:7002").expect("replica should add");
    cluster.mark_node_health("node-2", false).expect("health should be marked");
    let before: usize = cluster.readable_replicas().len();
    assert_eq!(before, 1);
    cluster.promote_node("node-2").expect("promotion should work");
    let primaries: Vec<&str> = cluster
        .topology()
        .nodes
        .iter()
        .filter(|node| node.role == NodeRole::Primary)
        .map(|node| node.node_id.as_str())
        .collect();
    assert_eq!(primaries, vec!["node-2"]);
    let leader = cluster.leader().expect("there should be a leader");
    assert!(leader.healthy);
    assert_eq!(cluster.readable_replicas().len(), 2);
}

#[test]
fn clusters_refuse_twins_and_strangers() {
    let mut cluster = ClusterManager::single_node("127.0.0.1:7000");
    assert!(cluster.add_replica("node-1", "elsewhere").is_err());
    assert!(cluster.mark_node_health("node-9", true).is_err());
    assert!(cluster.promote_node("node-9").is_err());
    assert!(cluster.ensure_leader("node-9").is_err());
    assert!(cluster.observe_leader("node-9").is_err());
    assert_eq!(cluster.topology().term, 1);
    cluster.upsert_node("node-1", "127.0.0.1:9000", NodeRole::Replica, false);
    assert_eq!(cluster.topology().nodes.len(), 1);
    assert_eq!(cluster.topology().nodes[0].address, "127.0.0.1:9000");
}

#[test]
fn single_node_default_disables_replication() {
    let status = ReplicationStatus::single_node_default();
    assert_eq!(status.mode, ReplicationMode::Disabled);
}

#[test]
fn leader_records_commits_and_replica_ack_updates_lag() {
    let mut manager = ReplicationManager::single_node_default();
    manager.configure_as_leader("leader-1", 2);
    manager.register_replica("replica-1").expect("replica should register");
    manager
        .record_leader_commit(
            7,
            WriteBatch {
                nodes_upserted: vec![NodeRecord::new(
                    NodeId::new("node_a").expect("valid node id"),
                    "memory",
                )
                .expect("node should build")],
                ..WriteBatch::default()
            },
        )
        .expect("commit should record");
    assert_eq!(manager.history_since(0).len(), 1);
    assert_eq!(manager.replica_lag_map().get_text("replica-1"), Some(&7));

    manager.acknowledge_replica("replica-1", 7).expect("ack should update");
    assert_eq!(manager.replica_lag_map().get_text("replica-1"), Some(&0));
}

#[test]
fn follower_tracks_last_applied_source_lsn_and_can_promote() {
    let mut manager = ReplicationManager::single_node_default();
    manager.configure_as_follower("replica-1", "leader-1", 1);
    manager.apply_follower_records(&[shipped(1, 8)]).expect("follower should apply");
    assert_eq!(manager.status().last_applied_source_lsn, 8);

    manager.promote_to_leader(2);
    assert_eq!(manager.status().mode, ReplicationMode::Leader);
    assert_eq!(manager.status().leader_node_id.as_deref(), Some("replica-1"));
}

#[test]
fn followers_go_forward_only() {
    let mut manager = ReplicationManager::single_node_default();
    manager.configure_as_follower("replica-1", "leader-1", 2);
    assert_eq!(manager.apply_follower_records(&[shipped(2, 4), shipped(3, 5)]), Ok(Some(5)));
    assert_eq!(manager.status().current_term, 3);
    assert_eq!(manager.status().last_applied_source_lsn, 5);
    assert_eq!(manager.apply_follower_records(&[shipped(3, 4), shipped(3, 5)]), Ok(None));
    assert_eq!(manager.status().last_applied_source_lsn, 5);
    assert!(manager.apply_follower_records(&[shipped(2, 9)]).is_err());
    assert_eq!(manager.status().last_applied_source_lsn, 5);
}

#[test]
fn accepted_records_are_those_that_go_on() {
    let mut manager = ReplicationManager::single_node_default();
    manager.configure_as_follower("replica-1", "leader-1", 1);
    manager.apply_follower_records(&[shipped(1, 5)]).expect("follower should apply");
    let accepted = validate_replication_records(
        manager.status(),
        &[shipped(1, 4), shipped(1, 6), shipped(2, 7)],
    )
    .expect("records should be accepted");
    let places: Vec<u64> = accepted.iter().map(|record| record.source_lsn).collect();
    assert_eq!(places, vec![6, 7]);
    assert!(validate_replication_records(manager.status(), &[shipped(0, 9)]).is_err());
}

#[test]
fn only_leaders_lead_and_only_followers_follow() {
    let status = ReplicationStatus::single_node("solo");
    assert!(ensure_leader(&status).is_err());
    assert!(ensure_follower(&status).is_err());
    let mut manager = ReplicationManager::single_node("solo");
    assert!(manager.register_replica("r").is_err());
    assert!(manager.record_leader_commit(1, WriteBatch::default()).is_err());
    assert!(manager.acknowledge_replica("r", 1).is_err());
    assert!(manager.apply_follower_records(&[shipped(1, 1)]).is_err());
    manager.configure_as_leader("solo", 1);
    assert!(ensure_leader(manager.status()).is_ok());
    assert!(manager.acknowledge_replica("stranger", 1).is_err());
    assert_eq!(manager.status().replica_lag("stranger"), None);
    manager.failover_to_follower("leader-2", 4);
    assert!(ensure_follower(manager.status()).is_ok());
    assert_eq!(manager.status().current_term, 4);
    manager.observe_local_apply(9);
    assert_eq!(manager.status().last_applied_lsn, 9);
    manager.disable("solo");
    assert_eq!(manager.status().mode, ReplicationMode::Disabled);
}

#[test]
fn stored_managers_come_back_as_they_were() {
    let mut cluster = ClusterManager::single_node("127.0.0.1:7000");
    cluster.add_replica("node-2", "127.0.0.1:7001").expect("replica should add");
    let restored = ClusterManager::from_stored(cluster.topology().replicate());
    assert_eq!(restored.topology(), cluster.topology());

    let mut turned = cluster.topology().replicate();
    turned.nodes.reverse();
    let mut restored = ClusterManager::from_stored(turned);
    assert_eq!(restored.topology().nodes[0].node_id, "node-2");
    assert_eq!(restored.leader().expect("the leader is there").node_id, "node-1");
    restored.add_replica("node-0", "127.0.0.1:7002").expect("replica should add");
    let ids: Vec<&str> =
        restored.topology().nodes.iter().map(|node| node.node_id.as_str()).collect();
    assert_eq!(ids, vec!["node-0", "node-1", "node-2"]);

    let mut doubled = cluster.topology().replicate();
    let mut again = doubled.nodes[1].replicate();
    again.address = "127.0.0.1:7009".to_owned();
    doubled.nodes.push(again);
    let mut restored = ClusterManager::from_stored(doubled);
    restored.mark_node_health("node-2", false).expect("the node is there");
    let healthy: Vec<bool> = restored.topology().nodes.iter().map(|node| node.healthy).collect();
    assert_eq!(healthy, vec![true, false, true]);
    restored.add_replica("node-3", "127.0.0.1:7003").expect("replica should add");
    let addresses: Vec<&str> =
        restored.topology().nodes.iter().map(|node| node.address.as_str()).collect();
    assert_eq!(
        addresses,
        vec!["127.0.0.1:7000", "127.0.0.1:7001", "127.0.0.1:7009", "127.0.0.1:7003"]
    );

    let mut manager = ReplicationManager::single_node("solo");
    manager.configure_as_leader("solo", 3);
    manager.register_replica("b").expect("a leader registers replicas");
    manager.register_replica("a").expect("a leader registers replicas");
    manager.record_leader_commit(7, WriteBatch::default()).expect("a leader records commits");
    let history: Vec<ReplicationRecord> =
        manager.history().iter().map(|record| record.replicate()).collect();
    let restored = ReplicationManager::from_stored(manager.status().replicate(), history);
    assert_eq!(restored.status(), manager.status());
    assert_eq!(restored.history(), manager.history());
    assert_eq!(restored.history().len(), 1);

    let mut turned = manager.status().replicate();
    turned.replicas.reverse();
    let mut last = turned.replicas[1].replicate();
    last.last_acked_source_lsn = 5;
    turned.replicas.push(last);
    let mut restored = ReplicationManager::from_stored(turned, Vec::new());
    assert_eq!(restored.replica_lag_map().get(&"a".to_owned()), Some(&2));
    assert_eq!(restored.status().replica_lag("a"), Some(7));
    restored.register_replica("0").expect("a leader registers replicas");
    let acked: Vec<(&str, u64)> = restored
        .status()
        .replicas
        .iter()
        .map(|replica| (replica.replica_node_id.as_str(), replica.last_acked_source_lsn))
        .collect();
    assert_eq!(acked, vec![("0", 0), ("a", 0), ("a", 5), ("b", 0)]);
}
